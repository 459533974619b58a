//! Text the loaders take apart: numbers and slash-separated paths.

use vstd::prelude::*;
use vstd::string::*;

verus! {

/// Whether a character is a decimal digit.
pub open spec fn is_digit(c: char) -> bool {
    '0' <= c <= '9'
}

/// The number a run of digits stands for.
pub open spec fn digits_value(digits: Seq<char>) -> nat
    decreases digits.len(),
{
    if digits.len() == 0 {
        0
    } else {
        digits_value(digits.drop_last()) * 10 + (digits.last() as nat - '0' as nat) as nat
    }
}

/// The digits of a number text: what follows its plus sign, if it has one.
pub open spec fn unsigned_digits(text: Seq<char>) -> Seq<char> {
    if text.len() > 0 && text[0] == '+' {
        text.skip(1)
    } else {
        text
    }
}

/// The unsigned number a text stands for: one digit or more, behind at most
/// one plus sign.
pub open spec fn unsigned_value(text: Seq<char>) -> Option<nat> {
    let digits = unsigned_digits(text);
    if digits.len() > 0 && (forall|i: int| 0 <= i < digits.len() ==> is_digit(#[trigger] digits[i]))
    {
        Some(digits_value(digits))
    } else {
        None
    }
}

/// The characters of a text.
pub fn chars_of(text: &str) -> (r: Vec<char>)
    ensures
        r@ == text@,
{
    let mut out: Vec<char> = Vec::new();
    let n: usize = text.unicode_len();
    for i in 0..n
        invariant
            n == text@.len(),
            out@ =~= text@.take(i as int),
    {
        out.push(text.get_char(i));
    }
    assert(out@ =~= text@);
    out
}

proof fn lemma_digits_grow(digits: Seq<char>, i: int)
    requires
        0 <= i <= digits.len(),
        forall|j: int| 0 <= j < digits.len() ==> is_digit(#[trigger] digits[j]),
    ensures
        digits_value(digits.take(i)) <= digits_value(digits),
    decreases digits.len() - i,
{
    if i < digits.len() {
        lemma_digits_grow(digits, i + 1);
        assert(digits.take(i + 1).drop_last() =~= digits.take(i));
        assert(is_digit(digits[i]));
    } else {
        assert(digits.take(i) =~= digits);
    }
}

/// The number `chars[from..]` stands for, if it is a run of digits whose
/// number does not pass `max`.
fn parse_digits(chars: &Vec<char>, from: usize, max: u32) -> (r: Option<u32>)
    requires
        from <= chars@.len(),
    ensures
        r is Some <==> {
            let digits = chars@.skip(from as int);
            &&& digits.len() > 0
            &&& forall|i: int| 0 <= i < digits.len() ==> is_digit(#[trigger] digits[i])
            &&& digits_value(digits) <= max
        },
        r is Some ==> r->0 == digits_value(chars@.skip(from as int)),
{
    let ghost digits = chars@.skip(from as int);
    if from == chars.len() {
        return None;
    }
    let mut value: u64 = 0;
    assert(digits.take(0) =~= Seq::<char>::empty());
    for i in from..chars.len()
        invariant
            from <= chars@.len(),
            digits == chars@.skip(from as int),
            forall|j: int| 0 <= j < i - from ==> is_digit(#[trigger] digits[j]),
            value == digits_value(digits.take(i - from)),
            value <= max,
    {
        let c: char = chars[i];
        assert(c == digits[i - from]);
        if c < '0' || c > '9' {
            assert(!is_digit(digits[i - from]));
            return None;
        }
        value = value * 10 + (c as u64 - '0' as u64);
        assert(digits.take(i - from + 1).drop_last() =~= digits.take(i - from));
        if value > max as u64 {
            proof {
                if forall|j: int| 0 <= j < digits.len() ==> is_digit(#[trigger] digits[j]) {
                    lemma_digits_grow(digits, i - from + 1);
                }
            }
            return None;
        }
    }
    assert(digits.take(digits.len() as int) =~= digits);
    Some(value as u32)
}

/// The unsigned number `chars` stands for, if it is one and does not pass
/// `max`.
pub fn parse_unsigned(chars: &Vec<char>, max: u32) -> (r: Option<u32>)
    ensures
        r is Some <==> (unsigned_value(chars@) is Some && unsigned_value(chars@)->0 <= max),
        r is Some ==> unsigned_value(chars@) == Some(r->0 as nat),
{
    let from: usize = if chars.len() > 0 && chars[0] == '+' {
        1
    } else {
        0
    };
    assert(chars@.skip(0) =~= chars@);
    parse_digits(chars, from, max)
}

/// The index of the last `mark` before `end`, or -1.
pub open spec fn last_before(text: Seq<char>, mark: char, end: int) -> int
    decreases end,
{
    if end <= 0 {
        -1
    } else if text[end - 1] == mark {
        end - 1
    } else {
        last_before(text, mark, end - 1)
    }
}

/// What follows the last `mark` in a text, or all of it where it has none.
pub open spec fn after_last(text: Seq<char>, mark: char) -> Seq<char> {
    text.skip(last_before(text, mark, text.len() as int) + 1)
}

pub proof fn lemma_last_before_range(text: Seq<char>, mark: char, end: int)
    requires
        0 <= end <= text.len(),
    ensures
        -1 <= last_before(text, mark, end) < end || end == 0 && last_before(text, mark, end) == -1,
    decreases end,
{
    if end > 0 && text[end - 1] != mark {
        lemma_last_before_range(text, mark, end - 1);
    }
}

/// What follows the last `mark` in a text.
pub fn after_last_mark(chars: &Vec<char>, mark: char) -> (r: Vec<char>)
    ensures
        r@ == after_last(chars@, mark),
{
    let mut from: usize = chars.len();
    while from > 0 && chars[from - 1] != mark
        invariant
            0 <= from <= chars@.len(),
            last_before(chars@, mark, from as int) == last_before(
                chars@,
                mark,
                chars@.len() as int,
            ),
        decreases from,
    {
        from = from - 1;
    }
    proof {
        lemma_last_before_range(chars@, mark, chars@.len() as int);
        assert(last_before(chars@, mark, chars@.len() as int) + 1 == from);
    }
    let mut out: Vec<char> = Vec::new();
    for i in from..chars.len()
        invariant
            from <= chars@.len(),
            out@ =~= chars@.subrange(from as int, i as int),
    {
        out.push(chars[i]);
    }
    assert(out@ =~= chars@.skip(from as int));
    out
}

/// Whether a stretch between slashes names a directory or a file. Nothing and
/// a single dot do not.
pub open spec fn names_entry(piece: Seq<char>) -> bool {
    piece.len() > 0 && piece != seq!['.']
}

/// `entries` with `piece` behind it, if it names an entry.
pub open spec fn with_piece(entries: Seq<Seq<char>>, piece: Seq<char>) -> Seq<Seq<char>> {
    if names_entry(piece) {
        entries.push(piece)
    } else {
        entries
    }
}

/// What the entries of a path are up to its character `end`, and the stretch
/// since the last slash before it.
pub open spec fn split_path(path: Seq<char>, end: int) -> (Seq<Seq<char>>, Seq<char>)
    decreases end,
{
    if end <= 0 {
        (Seq::empty(), Seq::empty())
    } else {
        let (entries, piece) = split_path(path, end - 1);
        if path[end - 1] == '/' {
            (with_piece(entries, piece), Seq::empty())
        } else {
            (entries, piece.push(path[end - 1]))
        }
    }
}

/// The entries of a slash-separated path, outermost first.
pub open spec fn path_entries(path: Seq<char>) -> Seq<Seq<char>> {
    let (entries, piece) = split_path(path, path.len() as int);
    with_piece(entries, piece)
}

/// The views of a list of texts.
pub open spec fn views(texts: Seq<Vec<char>>) -> Seq<Seq<char>> {
    Seq::new(texts.len(), |i: int| texts[i]@)
}

fn push_piece(entries: &mut Vec<Vec<char>>, piece: Vec<char>)
    ensures
        views(final(entries)@) == with_piece(views(old(entries)@), piece@),
{
    if piece.len() == 0 || (piece.len() == 1 && piece[0] == '.') {
        assert(piece@.len() == 1 ==> piece@ =~= seq!['.']);
        return;
    }
    proof {
        if piece@ == seq!['.'] {
            assert(piece@[0] == '.');
        }
    }
    entries.push(piece);
    assert(views(entries@) =~= views(old(entries)@).push(piece@));
}

/// The entries of a slash-separated path, outermost first.
pub fn entries_of(path: &str) -> (r: Vec<Vec<char>>)
    ensures
        views(r@) == path_entries(path@),
{
    let chars = chars_of(path);
    let mut entries: Vec<Vec<char>> = Vec::new();
    let mut piece: Vec<char> = Vec::new();
    assert(views(entries@) =~= Seq::<Seq<char>>::empty());
    for i in 0..chars.len()
        invariant
            chars@ == path@,
            (views(entries@), piece@) == split_path(path@, i as int),
    {
        let c: char = chars[i];
        if c == '/' {
            push_piece(&mut entries, piece);
            piece = Vec::new();
        } else {
            piece.push(c);
        }
    }
    push_piece(&mut entries, piece);
    entries
}

/// Whether a path starts at the root.
pub open spec fn is_absolute(path: Seq<char>) -> bool {
    path.len() > 0 && path[0] == '/'
}

/// A path below a directory; an absolute one stands by itself.
pub open spec fn joined(root: Seq<char>, path: Seq<char>) -> Seq<char> {
    if is_absolute(path) {
        path
    } else if root.len() == 0 || root.last() == '/' {
        root + path
    } else {
        root.push('/') + path
    }
}

/// Whether a path starts at the root.
pub fn absolute(path: &str) -> (r: bool)
    ensures
        r == is_absolute(path@),
{
    path.unicode_len() > 0 && path.get_char(0) == '/'
}

/// A path below a directory; an absolute one stands by itself.
pub fn join(root: &str, path: &str) -> (r: String)
    ensures
        r@ == joined(root@, path@),
{
    if absolute(path) {
        return path.to_owned();
    }
    let n: usize = root.unicode_len();
    let mut out: String = root.to_owned();
    if n > 0 && root.get_char(n - 1) != '/' {
        proof {
            reveal_strlit("/");
        }
        out.append("/");
        assert(out@ =~= root@.push('/'));
    }
    out.append(path);
    out
}

/// Whether a text comes before another, or is the same, in the order of their
/// characters.
pub open spec fn text_le(a: Seq<char>, b: Seq<char>) -> bool
    decreases a.len(),
{
    if a.len() == 0 {
        true
    } else if b.len() == 0 {
        false
    } else if a[0] != b[0] {
        a[0] < b[0]
    } else {
        text_le(a.skip(1), b.skip(1))
    }
}

/// Of two texts, one does not come after the other.
pub proof fn lemma_text_le_total(a: Seq<char>, b: Seq<char>)
    ensures
        text_le(a, b) || text_le(b, a),
    decreases a.len(),
{
    if a.len() > 0 && b.len() > 0 && a[0] == b[0] {
        lemma_text_le_total(a.skip(1), b.skip(1));
    }
}

/// The order of texts carries over.
pub proof fn lemma_text_le_transitive(a: Seq<char>, b: Seq<char>, c: Seq<char>)
    requires
        text_le(a, b),
        text_le(b, c),
    ensures
        text_le(a, c),
    decreases a.len(),
{
    if a.len() > 0 && b.len() > 0 && c.len() > 0 && a[0] == b[0] && b[0] == c[0] {
        lemma_text_le_transitive(a.skip(1), b.skip(1), c.skip(1));
    }
}

/// Two texts that do not come after each other are the same.
pub proof fn lemma_text_le_antisymmetric(a: Seq<char>, b: Seq<char>)
    requires
        text_le(a, b),
        text_le(b, a),
    ensures
        a == b,
    decreases a.len(),
{
    if a.len() > 0 && b.len() > 0 && a[0] == b[0] {
        lemma_text_le_antisymmetric(a.skip(1), b.skip(1));
        assert(a.skip(1).len() == a.len() - 1);
        assert(b.skip(1).len() == b.len() - 1);
        assert forall|i: int| 0 <= i < a.len() implies a[i] == b[i] by {
            if i > 0 {
                assert(a.skip(1)[i - 1] == b.skip(1)[i - 1]);
            }
        }
    }
    assert(a =~= b);
}

/// Whether a text does not come after another.
pub fn not_after(a: &str, b: &str) -> (r: bool)
    ensures
        r == text_le(a@, b@),
{
    let a_chars = chars_of(a);
    let b_chars = chars_of(b);
    let mut i: usize = 0;
    assert(a@.skip(0) =~= a@);
    assert(b@.skip(0) =~= b@);
    while i < a_chars.len() && i < b_chars.len() && a_chars[i] == b_chars[i]
        invariant
            a_chars@ == a@,
            b_chars@ == b@,
            0 <= i <= a@.len(),
            i <= b@.len(),
            text_le(a@, b@) == text_le(a@.skip(i as int), b@.skip(i as int)),
        decreases a@.len() - i,
    {
        assert(a@.skip(i as int).skip(1) =~= a@.skip(i + 1));
        assert(b@.skip(i as int).skip(1) =~= b@.skip(i + 1));
        i = i + 1;
    }
    if i == a_chars.len() {
        true
    } else if i == b_chars.len() {
        false
    } else {
        a_chars[i] < b_chars[i]
    }
}

/// The digit of a number below ten.
pub open spec fn digit(value: nat) -> char {
    ('0' as nat + value) as char
}

/// A number in decimal digits.
pub open spec fn decimal(value: nat) -> Seq<char>
    decreases value,
{
    if value < 10 {
        seq![digit(value)]
    } else {
        decimal(value / 10).push(digit(value % 10))
    }
}

proof fn lemma_decimal(value: nat)
    ensures
        decimal(value).len() > 0,
        forall|i: int| 0 <= i < decimal(value).len() ==> is_digit(#[trigger] decimal(value)[i]),
        digits_value(decimal(value)) == value,
    decreases value,
{
    if value >= 10 {
        lemma_decimal(value / 10);
        let before = decimal(value / 10);
        assert(decimal(value).drop_last() =~= before);
        assert forall|i: int| 0 <= i < decimal(value).len() implies is_digit(
            #[trigger] decimal(value)[i],
        ) by {
            if i < before.len() {
                assert(is_digit(before[i]));
            }
        }
        assert(value == value / 10 * 10 + value % 10);
    } else {
        let digits = decimal(value);
        assert(digits.drop_last() =~= Seq::<char>::empty());
        assert(digits_value(digits.drop_last()) == 0);
        assert(digits.last() as nat - '0' as nat == value);
    }
}

/// A number is read back from its decimal digits, with or without a plus sign, and
/// nothing that holds anything but digits behind it, nor nothing at all, is read as
/// a number.
pub proof fn numbers_are_read_back(value: nat, text: Seq<char>, i: int)
    ensures
        unsigned_value(decimal(value)) == Some(value),
        unsigned_value(seq!['+'] + decimal(value)) == Some(value),
        text.len() == 0 ==> unsigned_value(text) is None,
        0 < i < text.len() && !('0' <= text[i] <= '9') ==> unsigned_value(text) is None,
        text.len() > 0 && text[0] != '+' && !('0' <= text[0] <= '9') ==> unsigned_value(
            text,
        ) is None,
        unsigned_value(seq!['+']) is None,
{
    lemma_decimal(value);
    let digits = decimal(value);
    assert(is_digit(digits[0]));
    assert((seq!['+'] + digits).skip(1) =~= digits);
    assert(seq!['+'].skip(1) =~= Seq::<char>::empty());
    if 0 < i < text.len() && !is_digit(text[i]) {
        let read = unsigned_digits(text);
        if text[0] == '+' {
            assert(read[i - 1] == text[i]);
        } else {
            assert(read[i] == text[i]);
        }
    }
    if text.len() > 0 && text[0] != '+' && !is_digit(text[0]) {
        assert(!is_digit(unsigned_digits(text)[0]));
    }
}

/// What follows the last mark is what stands behind it, whatever stands before, and
/// a text without the mark is all of it.
pub proof fn the_last_mark_decides(before: Seq<char>, mark: char, rest: Seq<char>)
    requires
        forall|i: int| 0 <= i < rest.len() ==> #[trigger] rest[i] != mark,
    ensures
        after_last(before.push(mark) + rest, mark) == rest,
        after_last(rest, mark) == rest,
{
    let whole = before.push(mark) + rest;
    lemma_no_mark(whole, mark, before.len() as int, whole.len() as int);
    assert(after_last(whole, mark) =~= rest);
    lemma_no_mark(rest, mark, -1, rest.len() as int);
    assert(after_last(rest, mark) =~= rest);
}

proof fn lemma_no_mark(text: Seq<char>, mark: char, at: int, end: int)
    requires
        -1 <= at < text.len(),
        at + 1 <= end <= text.len(),
        at >= 0 ==> text[at] == mark,
        forall|i: int| at < i < end ==> #[trigger] text[i] != mark,
    ensures
        last_before(text, mark, end) == at,
    decreases end,
{
    if end > at + 1 {
        assert(text[end - 1] != mark);
        lemma_no_mark(text, mark, at, end - 1);
    }
}

proof fn lemma_split_prefix(path: Seq<char>, more: Seq<char>, end: int)
    requires
        0 <= end <= path.len(),
    ensures
        split_path(path + more, end) == split_path(path, end),
    decreases end,
{
    if end > 0 {
        lemma_split_prefix(path, more, end - 1);
    }
}

proof fn lemma_split_behind(
    root: Seq<char>,
    entries: Seq<Seq<char>>,
    path: Seq<char>,
    end: int,
)
    requires
        0 <= end <= path.len(),
        split_path(root, root.len() as int) == (entries, Seq::<char>::empty()),
    ensures
        split_path(root + path, root.len() + end) == (
            entries + split_path(path, end).0,
            split_path(path, end).1,
        ),
    decreases end,
{
    if end > 0 {
        lemma_split_behind(root, entries, path, end - 1);
        let (found, piece) = split_path(path, end - 1);
        assert((root + path)[root.len() + end - 1] == path[end - 1]);
        assert(with_piece(entries + found, piece) =~= entries + with_piece(found, piece));
    } else {
        lemma_split_prefix(root, path, root.len() as int);
        assert(entries + Seq::<Seq<char>>::empty() =~= entries);
    }
}

/// The entries of a path below a directory are those of the directory followed by
/// those of the path; an absolute path stands by itself. A slash more or less at the
/// end changes no entries.
pub proof fn joining_puts_entries_behind_each_other(root: Seq<char>, path: Seq<char>)
    ensures
        is_absolute(path) ==> joined(root, path) == path,
        !is_absolute(path) ==> path_entries(joined(root, path)) == path_entries(root)
            + path_entries(path),
        path_entries(root.push('/')) == path_entries(root),
{
    let slashed = root.push('/');
    let (entries, piece) = split_path(root, root.len() as int);
    assert(slashed =~= root + seq!['/']);
    lemma_split_prefix(root, seq!['/'], root.len() as int);
    assert(split_path(slashed, slashed.len() as int) == (
        path_entries(root),
        Seq::<char>::empty(),
    ));
    if !is_absolute(path) {
        let (found, last) = split_path(path, path.len() as int);
        let below = path_entries(root);
        if root.len() == 0 {
            assert(below =~= Seq::<Seq<char>>::empty());
            lemma_split_behind(root, below, path, path.len() as int);
        } else if root.last() == '/' {
            assert(piece =~= Seq::<char>::empty());
            lemma_split_behind(root, below, path, path.len() as int);
        } else {
            lemma_split_behind(slashed, below, path, path.len() as int);
        }
        assert(with_piece(below + found, last) =~= below + with_piece(found, last));
    }
}

/// Whether a text can name an entry of a path.
pub open spec fn is_name(text: Seq<char>) -> bool {
    &&& text.len() > 0
    &&& text != seq!['.']
    &&& forall|i: int| 0 <= i < text.len() ==> #[trigger] text[i] != '/'
}

/// A name is the one entry of the path that it is.
pub proof fn a_name_is_one_entry(name: Seq<char>)
    requires
        is_name(name),
    ensures
        path_entries(name) == seq![name],
        !is_absolute(name),
{
    lemma_split_name(name, name.len() as int);
    assert(name.take(name.len() as int) =~= name);
    assert(name[0] != '/');
    assert(path_entries(name) =~= seq![name]);
}

proof fn lemma_split_name(name: Seq<char>, end: int)
    requires
        0 <= end <= name.len(),
        forall|i: int| 0 <= i < name.len() ==> #[trigger] name[i] != '/',
    ensures
        split_path(name, end) == (Seq::<Seq<char>>::empty(), name.take(end)),
    decreases end,
{
    if end > 0 {
        lemma_split_name(name, end - 1);
        assert(name[end - 1] != '/');
        assert(name.take(end - 1).push(name[end - 1]) =~= name.take(end));
    } else {
        assert(name.take(0) =~= Seq::<char>::empty());
    }
}

/// Texts are ordered by the first characters in which they differ, and one that is
/// the beginning of another comes before it.
pub proof fn texts_are_ordered_by_their_first_difference(
    same: Seq<char>,
    a: Seq<char>,
    b: Seq<char>,
)
    requires
        a.len() > 0 && b.len() > 0 ==> a[0] != b[0],
    ensures
        a.len() > 0 && b.len() > 0 ==> (text_le(same + a, same + b) <==> a[0] < b[0]),
        a.len() == 0 ==> text_le(same + a, same + b),
        a.len() > 0 && b.len() == 0 ==> !text_le(same + a, same + b),
    decreases same.len(),
{
    if same.len() > 0 {
        texts_are_ordered_by_their_first_difference(same.skip(1), a, b);
        assert((same + a).skip(1) =~= same.skip(1) + a);
        assert((same + b).skip(1) =~= same.skip(1) + b);
    } else {
        assert(same + a =~= a);
        assert(same + b =~= b);
    }
}

} // verus!
