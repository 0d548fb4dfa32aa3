//! The command store: three lanes of classified commands, each kept sorted
//! case-insensitively.

use vstd::multiset::Multiset;
use vstd::prelude::*;

use crate::classify::classify;
use crate::classify::classify_spec;
use crate::classify::Category;
use crate::sorting::lemma_sort_by_sorted;
use crate::sorting::lower_key;
use crate::sorting::pair_lower_key;
use crate::sorting::pairs_view;
use crate::sorting::sort_by;
use crate::sorting::sort_pairs;
use crate::sorting::sort_strings;
use crate::sorting::sorted_by;
use crate::sorting::strings_view;

verus! {

/// One working-list entry as the UI layer hands it over: the raw command
/// text and the quiet flag chosen for it.
pub struct CustomListViewItem {
    pub text: String,
    pub quiet: bool,
}

impl View for CustomListViewItem {
    type V = (Seq<char>, bool);

    open spec fn view(&self) -> (Seq<char>, bool) {
        (self.text@, self.quiet)
    }
}

/// The mathematical model of a command store: three lanes of character
/// sequences, the terminal lane carrying quiet flags.
#[verifier::ext_equal]
pub struct StoreModel {
    pub file: Seq<Seq<char>>,
    pub windows: Seq<Seq<char>>,
    pub terminal: Seq<(Seq<char>, bool)>,
}

/// The model with three empty lanes.
pub open spec fn empty_model() -> StoreModel {
    StoreModel { file: Seq::empty(), windows: Seq::empty(), terminal: Seq::empty() }
}

/// The model built from three concrete lanes.
pub open spec fn lanes_model(
    file: Seq<String>,
    windows: Seq<String>,
    terminal: Seq<(String, bool)>,
) -> StoreModel {
    StoreModel {
        file: strings_view(file),
        windows: strings_view(windows),
        terminal: pairs_view(terminal),
    }
}

/// The model of a working list: the entries' texts and quiet flags in order.
pub open spec fn items_view(items: Seq<CustomListViewItem>) -> Seq<(Seq<char>, bool)> {
    items.map_values(|it: CustomListViewItem| it@)
}

/// Splits a working list into the three lanes, keeping input order inside
/// each lane: every entry lands in exactly one lane, decided by
/// `classify_spec` on its text and its existence flag (the partition is
/// total, never a filter).  Only terminal entries keep their quiet flag.
pub open spec fn partition_model(
    entries: Seq<(Seq<char>, bool)>,
    on_disk: Seq<bool>,
) -> StoreModel
    decreases entries.len(),
{
    if entries.len() == 0 {
        empty_model()
    } else {
        let prev = partition_model(entries.drop_last(), on_disk.drop_last());
        let e = entries.last();
        let c = classify_spec(e.0, on_disk.last());
        if c == Category::File {
            StoreModel { file: prev.file.push(e.0), windows: prev.windows, terminal: prev.terminal }
        } else if c == Category::WindowsAction {
            StoreModel { file: prev.file, windows: prev.windows.push(e.0), terminal: prev.terminal }
        } else {
            StoreModel { file: prev.file, windows: prev.windows, terminal: prev.terminal.push(e) }
        }
    }
}

/// Each lane of `m`, sorted stably by the case-insensitive key.
pub open spec fn sort_model(m: StoreModel) -> StoreModel {
    StoreModel {
        file: sort_by(lower_key(), m.file),
        windows: sort_by(lower_key(), m.windows),
        terminal: sort_by(pair_lower_key(), m.terminal),
    }
}

/// The texts of a sequence of entries, quiet flags dropped.
pub open spec fn entry_texts(entries: Seq<(Seq<char>, bool)>) -> Seq<Seq<char>> {
    entries.map_values(|e: (Seq<char>, bool)| e.0)
}

/// The multiset of command texts a store model holds, over its three lanes.
pub open spec fn model_texts(m: StoreModel) -> Multiset<Seq<char>> {
    m.file.to_multiset().add(m.windows.to_multiset()).add(
        entry_texts(m.terminal).to_multiset(),
    )
}

/// Classification is a partition, not a filter: the three lanes together
/// hold exactly the texts of the working list, as a multiset — every entry
/// lands in exactly one lane, none is dropped and none is duplicated.
pub proof fn lemma_partition_is_partition(entries: Seq<(Seq<char>, bool)>, on_disk: Seq<bool>)
    ensures
        ({
            let p = partition_model(entries, on_disk);
            &&& p.file.len() + p.windows.len() + p.terminal.len() == entries.len()
            &&& model_texts(p) == entry_texts(entries).to_multiset()
        }),
    decreases entries.len(),
{
    broadcast use vstd::seq_lib::group_to_multiset_ensures;
    broadcast use vstd::multiset::group_multiset_axioms;

    let p = partition_model(entries, on_disk);
    if entries.len() == 0 {
        assert(p.file.to_multiset() =~= Multiset::<Seq<char>>::empty());
        assert(p.windows.to_multiset() =~= Multiset::<Seq<char>>::empty());
        assert(entry_texts(p.terminal) =~= Seq::<Seq<char>>::empty());
        assert(entry_texts(entries) =~= Seq::<Seq<char>>::empty());
        assert(model_texts(p) =~= entry_texts(entries).to_multiset());
    } else {
        lemma_partition_is_partition(entries.drop_last(), on_disk.drop_last());
        let prev = partition_model(entries.drop_last(), on_disk.drop_last());
        let e = entries.last();
        assert(entry_texts(entries) =~= entry_texts(entries.drop_last()).push(e.0));
        let c = classify_spec(e.0, on_disk.last());
        if c == Category::File {
            assert(model_texts(p) =~= model_texts(prev).insert(e.0));
        } else if c == Category::WindowsAction {
            assert(model_texts(p) =~= model_texts(prev).insert(e.0));
        } else {
            assert(entry_texts(p.terminal) =~= entry_texts(prev.terminal).push(e.0));
            assert(model_texts(p) =~= model_texts(prev).insert(e.0));
        }
        assert(model_texts(p) =~= entry_texts(entries).to_multiset());
    }
}

/// The lanes that `from_state` builds also hold, together, exactly the
/// working list's texts: sorting each lane rearranges and never adds or
/// drops one.
pub proof fn lemma_store_holds_all_entries(entries: Seq<(Seq<char>, bool)>, on_disk: Seq<bool>)
    ensures
        model_texts(sort_model(partition_model(entries, on_disk))) == entry_texts(
            entries,
        ).to_multiset(),
{
    lemma_partition_is_partition(entries, on_disk);
    let p = partition_model(entries, on_disk);
    crate::sorting::lemma_sort_by_multiset(lower_key(), p.file);
    crate::sorting::lemma_sort_by_multiset(lower_key(), p.windows);
    crate::sorting::lemma_sort_by_multiset(pair_lower_key(), p.terminal);
    let sp = sort_model(p);
    assert(entry_texts(sp.terminal).to_multiset() =~= entry_texts(p.terminal).to_multiset()) by {
        lemma_texts_multiset(sp.terminal, p.terminal);
    }
    assert(model_texts(sp) =~= model_texts(p));
}

/// Two entry sequences with the same multiset of entries have the same
/// multiset of texts.
proof fn lemma_texts_multiset(a: Seq<(Seq<char>, bool)>, b: Seq<(Seq<char>, bool)>)
    requires
        a.to_multiset() == b.to_multiset(),
    ensures
        entry_texts(a).to_multiset() == entry_texts(b).to_multiset(),
    decreases a.len(),
{
    broadcast use vstd::seq_lib::group_to_multiset_ensures;
    broadcast use vstd::multiset::group_multiset_axioms;

    if a.len() == 0 {
        assert(a.to_multiset().len() == a.len());
        assert(b.to_multiset().len() == b.len());
        assert(b.len() == 0);
        assert(entry_texts(a) =~= entry_texts(b));
    } else {
        let x = a.last();
        assert(a.to_multiset().contains(x)) by {
            assert(a.contains(x));
        }
        assert(b.to_multiset().contains(x));
        assert(b.contains(x));
        let i = choose|i: int| 0 <= i < b.len() && b[i] == x;
        assert(a.drop_last().push(x) =~= a);
        assert(a.drop_last().to_multiset() =~= a.to_multiset().remove(x));
        assert(b.remove(i).to_multiset() =~= b.to_multiset().remove(x));
        lemma_texts_multiset(a.drop_last(), b.remove(i));
        assert(entry_texts(a) =~= entry_texts(a.drop_last()).push(x.0));
        assert(entry_texts(b.remove(i)) =~= entry_texts(b).remove(i));
        assert(entry_texts(b).remove(i).to_multiset() =~= entry_texts(b).to_multiset().remove(
            b[i].0,
        )) by {
            assert(entry_texts(b)[i] == b[i].0);
        }
        assert(entry_texts(a).to_multiset() =~= entry_texts(b).to_multiset());
    }
}

/// Whether every lane of `m` is sorted by the case-insensitive key.
pub open spec fn model_sorted(m: StoreModel) -> bool {
    &&& sorted_by(lower_key(), m.file)
    &&& sorted_by(lower_key(), m.windows)
    &&& sorted_by(pair_lower_key(), m.terminal)
}

/// The persisted command store: three lanes, each sorted case-insensitively.
/// Like the persisted record it mirrors, the store itself does not enforce
/// sortedness; the constructors that build one (`from_state`, and parsing)
/// establish it.
#[derive(Debug)]
pub struct Commands {
    pub file: Vec<String>,
    pub windows: Vec<String>,
    pub terminal: Vec<(String, bool)>,
}

impl View for Commands {
    type V = StoreModel;

    open spec fn view(&self) -> StoreModel {
        lanes_model(self.file@, self.windows@, self.terminal@)
    }
}

impl Commands {
    /// The store with three empty lanes.
    pub fn empty() -> (r: Commands)
        ensures
            r@ == empty_model(),
    {
        let r = Commands { file: Vec::new(), windows: Vec::new(), terminal: Vec::new() };
        proof {
            assert(r@ =~= empty_model());
        }
        r
    }

    /// The file lane: commands that named existing paths.
    pub fn file(&self) -> (r: &[String])
        ensures
            strings_view(r@) == self@.file,
    {
        self.file.as_slice()
    }

    /// The window-action lane: `"start"`-prefixed commands.
    pub fn windows(&self) -> (r: &[String])
        ensures
            strings_view(r@) == self@.windows,
    {
        self.windows.as_slice()
    }

    /// The terminal lane: fallback commands with their quiet flags.
    pub fn terminal(&self) -> (r: &[(String, bool)])
        ensures
            pairs_view(r@) == self@.terminal,
    {
        self.terminal.as_slice()
    }

    /// Builds a store from the working list: every entry is classified with
    /// its existence flag and appended to its lane, then each lane is sorted
    /// case-insensitively and stably.  `on_disk[i]` reports whether the text
    /// of `items[i]` names an existing filesystem path at classification
    /// time; the caller supplies it, since the check reads mutable
    /// filesystem state.
    pub fn from_state(items: &Vec<CustomListViewItem>, on_disk: &Vec<bool>) -> (r: Commands)
        requires
            items@.len() == on_disk@.len(),
        ensures
            r@ == sort_model(partition_model(items_view(items@), on_disk@)),
            model_sorted(r@),
    {
        let mut file: Vec<String> = Vec::new();
        let mut windows: Vec<String> = Vec::new();
        let mut terminal: Vec<(String, bool)> = Vec::new();
        proof {
            assert(items_view(items@.take(0)) =~= Seq::<(Seq<char>, bool)>::empty());
            assert(lanes_model(file@, windows@, terminal@) =~= empty_model());
        }
        let mut i: usize = 0;
        while i < items.len()
            invariant
                i <= items@.len(),
                items@.len() == on_disk@.len(),
                lanes_model(file@, windows@, terminal@) == partition_model(
                    items_view(items@.take(i as int)),
                    on_disk@.take(i as int),
                ),
            decreases items@.len() - i,
        {
            let ghost old_file = file@;
            let ghost old_windows = windows@;
            let ghost old_terminal = terminal@;
            let it = &items[i];
            let cat = classify(it.text.as_str(), on_disk[i]);
            match cat {
                Category::File => file.push(it.text.clone()),
                Category::WindowsAction => windows.push(it.text.clone()),
                Category::Terminal => terminal.push((it.text.clone(), it.quiet)),
            }
            proof {
                let ev = items_view(items@.take(i + 1));
                let dv = on_disk@.take(i + 1);
                assert(ev.drop_last() =~= items_view(items@.take(i as int)));
                assert(dv.drop_last() =~= on_disk@.take(i as int));
                assert(ev.last() == items@[i as int]@);
                assert(dv.last() == on_disk@[i as int]);
                if cat == Category::File {
                    assert(strings_view(file@) =~= strings_view(old_file).push(
                        items@[i as int].text@,
                    ));
                } else if cat == Category::WindowsAction {
                    assert(strings_view(windows@) =~= strings_view(old_windows).push(
                        items@[i as int].text@,
                    ));
                } else {
                    assert(pairs_view(terminal@) =~= pairs_view(old_terminal).push(
                        items@[i as int]@,
                    ));
                }
                assert(lanes_model(file@, windows@, terminal@) =~= partition_model(ev, dv));
            }
            i = i + 1;
        }
        proof {
            assert(items@.take(i as int) =~= items@);
            assert(on_disk@.take(i as int) =~= on_disk@);
        }
        sort_strings(&mut file);
        sort_strings(&mut windows);
        sort_pairs(&mut terminal);
        let r = Commands { file, windows, terminal };
        proof {
            let p = partition_model(items_view(items@), on_disk@);
            assert(r@ =~= sort_model(p));
            lemma_sort_by_sorted(lower_key(), p.file);
            lemma_sort_by_sorted(lower_key(), p.windows);
            lemma_sort_by_sorted(pair_lower_key(), p.terminal);
        }
        r
    }
}

} // verus!
