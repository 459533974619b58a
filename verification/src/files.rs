//! The data files of a dataset, in the order they are read.

use vstd::prelude::*;
use vstd::string::*;

use crate::data;
use crate::data::file_year_month;
use crate::text;
use crate::text::entries_of;

verus! {

/// The texts of a list.
pub open spec fn texts(list: Seq<String>) -> Seq<Seq<char>> {
    Seq::new(list.len(), |i: int| list[i]@)
}

/// The ending of a data file's name.
pub open spec fn parquet_ending() -> Seq<char> {
    seq!['.', 'p', 'a', 'r', 'q', 'u', 'e', 't']
}

/// Whether a path is that of a data file: the name it ends in has something
/// before the extension `parquet`.
pub open spec fn is_parquet(path: Seq<char>) -> bool {
    let entries = text::path_entries(path);
    entries.len() > 0 && entries.last().len() > 8 && entries.last().skip(
        entries.last().len() - 8,
    ) == parquet_ending()
}

/// Whether a list of entries does not come after another: the first entries
/// that differ decide.
pub open spec fn entries_le(a: Seq<Seq<char>>, b: Seq<Seq<char>>) -> bool
    decreases a.len(),
{
    if a.len() == 0 {
        true
    } else if b.len() == 0 {
        false
    } else if a[0] != b[0] {
        text::text_le(a[0], b[0])
    } else {
        entries_le(a.skip(1), b.skip(1))
    }
}

/// The month a file is sorted under; one that lies in none comes first.
pub open spec fn sort_month(path: Seq<char>) -> (nat, nat) {
    match data::year_month_of(path) {
        Some(month) => month,
        None => (0, 0),
    }
}

/// Whether a month does not come after another.
pub open spec fn month_le(a: (nat, nat), b: (nat, nat)) -> bool {
    a.0 < b.0 || (a.0 == b.0 && a.1 <= b.1)
}

/// Whether a file is not read after another: by month, then by path.
pub open spec fn file_le(a: Seq<char>, b: Seq<char>) -> bool {
    if sort_month(a) != sort_month(b) {
        month_le(sort_month(a), sort_month(b))
    } else {
        entries_le(text::path_entries(a), text::path_entries(b))
    }
}

/// Whether files are in reading order.
pub open spec fn in_reading_order(files: Seq<Seq<char>>) -> bool {
    forall|i: int, j: int|
        0 <= i < j < files.len() ==> file_le(#[trigger] files[i], #[trigger] files[j])
}

proof fn lemma_entries_total(a: Seq<Seq<char>>, b: Seq<Seq<char>>)
    ensures
        entries_le(a, b) || entries_le(b, a),
    decreases a.len(),
{
    if a.len() > 0 && b.len() > 0 {
        if a[0] == b[0] {
            lemma_entries_total(a.skip(1), b.skip(1));
        } else {
            text::lemma_text_le_total(a[0], b[0]);
        }
    }
}

proof fn lemma_entries_transitive(a: Seq<Seq<char>>, b: Seq<Seq<char>>, c: Seq<Seq<char>>)
    requires
        entries_le(a, b),
        entries_le(b, c),
    ensures
        entries_le(a, c),
    decreases a.len(),
{
    if a.len() > 0 && b.len() > 0 && c.len() > 0 {
        if a[0] == b[0] && b[0] == c[0] {
            lemma_entries_transitive(a.skip(1), b.skip(1), c.skip(1));
        } else if a[0] != b[0] && b[0] != c[0] {
            text::lemma_text_le_transitive(a[0], b[0], c[0]);
            if a[0] == c[0] {
                text::lemma_text_le_antisymmetric(a[0], b[0]);
            }
        }
    }
}

/// Of two files, one is not read after the other.
pub proof fn reading_order_is_total(a: Seq<char>, b: Seq<char>)
    ensures
        file_le(a, b) || file_le(b, a),
{
    lemma_entries_total(text::path_entries(a), text::path_entries(b));
}

/// The order in which files are read carries over.
pub proof fn reading_order_is_transitive(a: Seq<char>, b: Seq<char>, c: Seq<char>)
    requires
        file_le(a, b),
        file_le(b, c),
    ensures
        file_le(a, c),
{
    if sort_month(a) == sort_month(b) && sort_month(b) == sort_month(c) {
        lemma_entries_transitive(
            text::path_entries(a),
            text::path_entries(b),
            text::path_entries(c),
        );
    }
}

fn compare_texts(a: &Vec<char>, b: &Vec<char>) -> (r: (bool, bool))
    ensures
        r.0 == (a@ == b@),
        r.1 == text::text_le(a@, b@),
{
    let mut i: usize = 0;
    assert(a@.skip(0) =~= a@);
    assert(b@.skip(0) =~= b@);
    while i < a.len() && i < b.len() && a[i] == b[i]
        invariant
            0 <= i <= a@.len(),
            i <= b@.len(),
            forall|j: int| 0 <= j < i ==> a@[j] == b@[j],
            text::text_le(a@, b@) == text::text_le(a@.skip(i as int), b@.skip(i as int)),
        decreases a@.len() - i,
    {
        assert(a@.skip(i as int).skip(1) =~= a@.skip(i + 1));
        assert(b@.skip(i as int).skip(1) =~= b@.skip(i + 1));
        i = i + 1;
    }
    if i == a.len() {
        if i == b.len() {
            assert(a@ =~= b@);
            (true, true)
        } else {
            (false, true)
        }
    } else if i == b.len() {
        (false, false)
    } else {
        assert(a@[i as int] != b@[i as int]);
        (false, a[i] < b[i])
    }
}

fn entries_not_after(a: &Vec<Vec<char>>, b: &Vec<Vec<char>>) -> (r: bool)
    ensures
        r == entries_le(text::views(a@), text::views(b@)),
{
    let ghost av = text::views(a@);
    let ghost bv = text::views(b@);
    let mut i: usize = 0;
    assert(av.skip(0) =~= av);
    assert(bv.skip(0) =~= bv);
    while i < a.len() && i < b.len()
        invariant
            av == text::views(a@),
            bv == text::views(b@),
            0 <= i <= a@.len(),
            i <= b@.len(),
            entries_le(av, bv) == entries_le(av.skip(i as int), bv.skip(i as int)),
        decreases a@.len() - i,
    {
        assert(av[i as int] == a@[i as int]@);
        assert(bv[i as int] == b@[i as int]@);
        assert(av.skip(i as int)[0] == av[i as int]);
        assert(bv.skip(i as int)[0] == bv[i as int]);
        let (same, before) = compare_texts(&a[i], &b[i]);
        if !same {
            return before;
        }
        assert(av.skip(i as int).skip(1) =~= av.skip(i + 1));
        assert(bv.skip(i as int).skip(1) =~= bv.skip(i + 1));
        i = i + 1;
    }
    i == a.len()
}

/// Whether a file is not read after another: by month, then by path.
pub fn file_not_after(a: &str, b: &str) -> (r: bool)
    ensures
        r == file_le(a@, b@),
{
    let month_a: (u32, u32) = match file_year_month(a) {
        Some(month) => month,
        None => (0, 0),
    };
    let month_b: (u32, u32) = match file_year_month(b) {
        Some(month) => month,
        None => (0, 0),
    };
    assert(sort_month(a@) == (month_a.0 as nat, month_a.1 as nat));
    assert(sort_month(b@) == (month_b.0 as nat, month_b.1 as nat));
    if month_a.0 != month_b.0 {
        return month_a.0 < month_b.0;
    }
    if month_a.1 != month_b.1 {
        return month_a.1 < month_b.1;
    }
    entries_not_after(&entries_of(a), &entries_of(b))
}

/// Whether a path is that of a data file.
pub fn parquet_file(path: &str) -> (r: bool)
    ensures
        r == is_parquet(path@),
{
    let entries = entries_of(path);
    assert(text::views(entries@).len() == entries@.len());
    let n: usize = entries.len();
    if n == 0 {
        return false;
    }
    let name: &Vec<char> = &entries[n - 1];
    assert(text::views(entries@).last() == name@);
    let len: usize = name.len();
    if len <= 8 {
        return false;
    }
    let ending: [char; 8] = ['.', 'p', 'a', 'r', 'q', 'u', 'e', 't'];
    assert(ending@ =~= parquet_ending());
    for i in 0..8usize
        invariant
            text::path_entries(path@).len() > 0,
            name@ == text::path_entries(path@).last(),
            len == name@.len(),
            len > 8,
            ending@ == parquet_ending(),
            forall|j: int| 0 <= j < i ==> name@.skip(len - 8)[j] == ending@[j],
    {
        assert(name@.skip(len - 8)[i as int] == name@[len - 8 + i]);
        if name[len - 8 + i] != ending[i] {
            assert(name@.skip(len - 8)[i as int] != parquet_ending()[i as int]);
            return false;
        }
    }
    assert(name@.skip(len - 8) =~= parquet_ending());
    true
}

/// Put a file in its place, behind those it is not read before.
fn insert_file(files: &mut Vec<String>, file: String)
    requires
        in_reading_order(texts(old(files)@)),
    ensures
        in_reading_order(texts(final(files)@)),
        texts(final(files)@).to_multiset() == texts(old(files)@).to_multiset().insert(file@),
{
    let ghost before = texts(files@);
    let mut place: usize = 0;
    while place < files.len() && file_not_after(files[place].as_str(), file.as_str())
        invariant
            0 <= place <= files@.len(),
            before == texts(files@),
            forall|i: int| 0 <= i < place ==> file_le(#[trigger] before[i], file@),
        decreases files@.len() - place,
    {
        assert(before[place as int] == files@[place as int]@);
        place = place + 1;
    }
    proof {
        if place < before.len() {
            assert(before[place as int] == files@[place as int]@);
            reading_order_is_total(before[place as int], file@);
        }
        let after = before.insert(place as int, file@);
        assert forall|i: int, j: int| 0 <= i < j < after.len() implies file_le(
            #[trigger] after[i],
            #[trigger] after[j],
        ) by {
            if i == place {
                if j - 1 > place {
                    assert(file_le(before[place as int], before[j - 1]));
                    reading_order_is_transitive(file@, before[place as int], before[j - 1]);
                }
            } else if j == place {
                assert(after[i] == before[i]);
            } else {
                let a = if i < place {
                    i
                } else {
                    i - 1
                };
                let b = if j < place {
                    j
                } else {
                    j - 1
                };
                assert(file_le(before[a], before[b]));
            }
        }
        vstd::seq_lib::to_multiset_insert(before, place as int, file@);
    }
    files.insert(place, file);
    assert(texts(files@) =~= before.insert(place as int, file@));
}

/// The data files among the entries of a data root, in reading order.
pub fn sorted_parquet_files(entries: &Vec<String>) -> (r: Vec<String>)
    ensures
        in_reading_order(texts(r@)),
        texts(r@).to_multiset() == texts(entries@).filter(
            |path: Seq<char>| is_parquet(path),
        ).to_multiset(),
{
    let mut files: Vec<String> = Vec::new();
    let ghost all = texts(entries@);
    let ghost keep = |path: Seq<char>| is_parquet(path);
    proof {
        assert(texts(files@) =~= Seq::<Seq<char>>::empty());
        assert(all.take(0) =~= Seq::<Seq<char>>::empty());
        reveal(Seq::filter);
        assert(all.take(0).filter(keep) =~= Seq::<Seq<char>>::empty());
    }
    for i in 0..entries.len()
        invariant
            all == texts(entries@),
            keep == (|path: Seq<char>| is_parquet(path)),
            in_reading_order(texts(files@)),
            texts(files@).to_multiset() == all.take(i as int).filter(keep).to_multiset(),
    {
        proof {
            assert(all.take(i + 1).drop_last() =~= all.take(i as int));
            assert(all.take(i + 1).last() == entries@[i as int]@);
            reveal(Seq::filter);
        }
        if parquet_file(entries[i].as_str()) {
            proof {
                vstd::seq_lib::to_multiset_build(
                    all.take(i as int).filter(keep),
                    entries@[i as int]@,
                );
            }
            insert_file(&mut files, entries[i].as_str().to_owned());
        }
    }
    assert(all.take(all.len() as int) =~= all);
    files
}

/// Files of an earlier month are read before those of a later one, and files that
/// lie in no month before all that lie in one.
pub proof fn earlier_months_are_read_first(a: Seq<char>, b: Seq<char>)
    ensures
        match (data::year_month_of(a), data::year_month_of(b)) {
            (Some(first), Some(second)) => {
                let (year, month) = first;
                let (later_year, later_month) = second;
                year < later_year || (year == later_year && month < later_month) ==> file_le(a, b)
                    && !file_le(b, a)
            },
            (None, Some(second)) => second != (0nat, 0nat) ==> file_le(a, b) && !file_le(b, a),
            _ => true,
        },
{
}

/// Within a month files are read by the first directories, or names, in which their
/// paths differ.
pub proof fn within_a_month_paths_decide(
    a: Seq<char>,
    b: Seq<char>,
    same: Seq<Seq<char>>,
    first: Seq<Seq<char>>,
    second: Seq<Seq<char>>,
)
    requires
        data::year_month_of(a) == data::year_month_of(b),
        text::path_entries(a) == same + first,
        text::path_entries(b) == same + second,
        first.len() > 0,
        second.len() > 0,
        first[0] != second[0],
    ensures
        file_le(a, b) <==> text::text_le(first[0], second[0]),
{
    lemma_same_entries(same, first, second);
}

proof fn lemma_same_entries(
    same: Seq<Seq<char>>,
    first: Seq<Seq<char>>,
    second: Seq<Seq<char>>,
)
    requires
        first.len() > 0,
        second.len() > 0,
        first[0] != second[0],
    ensures
        entries_le(same + first, same + second) <==> text::text_le(first[0], second[0]),
    decreases same.len(),
{
    if same.len() > 0 {
        lemma_same_entries(same.skip(1), first, second);
        assert((same + first).skip(1) =~= same.skip(1) + first);
        assert((same + second).skip(1) =~= same.skip(1) + second);
    } else {
        assert(same + first =~= first);
        assert(same + second =~= second);
    }
}

/// A file counts as data exactly when its name is something with `.parquet` behind
/// it, wherever it lies.
pub proof fn data_files_are_named_parquet(root: Seq<char>, name: Seq<char>, stem: Seq<char>)
    requires
        text::is_name(name),
    ensures
        name == stem + seq!['.', 'p', 'a', 'r', 'q', 'u', 'e', 't'] && stem.len() > 0
            ==> is_parquet(text::joined(root, name)),
        is_parquet(text::joined(root, name)) ==> name.len() > 8 && name == name.take(
            name.len() - 8,
        ) + seq!['.', 'p', 'a', 'r', 'q', 'u', 'e', 't'],
{
    text::a_name_is_one_entry(name);
    text::joining_puts_entries_behind_each_other(root, name);
    let entries = text::path_entries(text::joined(root, name));
    assert(entries.last() == name);
    let ending = seq!['.', 'p', 'a', 'r', 'q', 'u', 'e', 't'];
    assert(ending.len() == 8);
    if name == stem + ending && stem.len() > 0 {
        assert(name.skip(name.len() - 8) =~= parquet_ending());
    }
    if is_parquet(text::joined(root, name)) {
        assert(name.skip(name.len() - 8) == parquet_ending());
        assert(name =~= name.take(name.len() - 8) + name.skip(name.len() - 8));
    }
}

} // verus!
