//! Strings as character sequences: comparison, splitting and decimal notation.

use vstd::prelude::*;

verus! {

use vstd::utf8::encode_scalar;
use vstd::utf8::encode_utf8;

/// The pieces of `s` between occurrences of `sep`; a text without `sep` is one piece.
pub open spec fn split(s: Seq<char>, sep: char) -> Seq<Seq<char>>
    decreases s.len(),
{
    if s.len() == 0 {
        seq![Seq::empty()]
    } else {
        let front = split(s.drop_last(), sep);
        if s.last() == sep {
            front.push(Seq::empty())
        } else {
            front.update(front.len() - 1, front.last().push(s.last()))
        }
    }
}

/// No piece holds the separator.
pub proof fn lemma_split_apart(s: Seq<char>, sep: char, k: int)
    requires
        0 <= k < split(s, sep).len(),
    ensures
        forall|j: int| 0 <= j < split(s, sep)[k].len() ==> #[trigger] split(s, sep)[k][j] != sep,
    decreases s.len(),
{
    if s.len() > 0 {
        let front = split(s.drop_last(), sep);
        lemma_split_nonempty(s.drop_last(), sep);
        if k < front.len() {
            lemma_split_apart(s.drop_last(), sep, k);
        }
    }
}

pub proof fn lemma_split_nonempty(s: Seq<char>, sep: char)
    ensures
        split(s, sep).len() >= 1,
    decreases s.len(),
{
    if s.len() > 0 {
        lemma_split_nonempty(s.drop_last(), sep);
    }
}

/// A text whose first character is no separator has a first piece that is not empty.
pub proof fn lemma_split_first(s: Seq<char>, sep: char)
    requires
        s.len() > 0,
        s[0] != sep,
    ensures
        split(s, sep)[0].len() > 0,
    decreases s.len(),
{
    lemma_split_nonempty(s.drop_last(), sep);
    if s.len() > 1 {
        lemma_split_first(s.drop_last(), sep);
    }
}

/// What follows a separator, without another one, is the last piece.
pub proof fn lemma_split_tail(s: Seq<char>, t: Seq<char>, sep: char)
    requires
        s.len() > 0,
        s.last() == sep,
        !t.contains(sep),
    ensures
        split(s + t, sep).len() >= 2,
        split(s + t, sep).last() == t,
    decreases t.len(),
{
    if t.len() == 0 {
        lemma_split_nonempty(s.drop_last(), sep);
        assert(s + t =~= s);
    } else {
        let front = t.drop_last();
        assert(!front.contains(sep)) by {
            if front.contains(sep) {
                let i = choose|i: int| 0 <= i < front.len() && front[i] == sep;
                assert(t[i] == sep);
            }
        }
        lemma_split_tail(s, front, sep);
        assert((s + t).drop_last() =~= s + front);
        assert(t.contains(t.last()));
        assert(front.push(t.last()) =~= t);
    }
}

/// `needle` occurs in `hay` at some position.
pub open spec fn occurs_in(needle: Seq<char>, hay: Seq<char>) -> bool {
    exists|i: int| #[trigger] occurs_at(needle, hay, i)
}

/// `needle` occurs in `hay` at position `i`.
pub open spec fn occurs_at(needle: Seq<char>, hay: Seq<char>, i: int) -> bool {
    &&& 0 <= i
    &&& i + needle.len() <= hay.len()
    &&& hay.subrange(i, i + needle.len()) == needle
}

/// The decimal digits of `n`, most significant first, without leading zeros.
pub open spec fn decimal(n: nat) -> Seq<char>
    decreases n,
{
    if n < 10 {
        seq![digit_char(n)]
    } else {
        decimal(n / 10).push(digit_char(n % 10))
    }
}

/// The character of one decimal digit.
pub open spec fn digit_char(d: nat) -> char {
    if d == 0 {
        '0'
    } else if d == 1 {
        '1'
    } else if d == 2 {
        '2'
    } else if d == 3 {
        '3'
    } else if d == 4 {
        '4'
    } else if d == 5 {
        '5'
    } else if d == 6 {
        '6'
    } else if d == 7 {
        '7'
    } else if d == 8 {
        '8'
    } else {
        '9'
    }
}

/// Every character is an ASCII digit.
pub open spec fn all_digits(s: Seq<char>) -> bool {
    forall|i: int| 0 <= i < s.len() ==> '0' <= #[trigger] s[i] <= '9'
}

/// The number that a sequence of ASCII digits denotes in base ten.
pub open spec fn decimal_value(s: Seq<char>) -> nat
    decreases s.len(),
{
    if s.len() == 0 {
        0
    } else {
        decimal_value(s.drop_last()) * 10 + (s.last() as nat - '0' as nat) as nat
    }
}

/// The texts of a list of strings.
pub open spec fn texts(list: Seq<String>) -> Seq<Seq<char>> {
    list.map_values(|s: String| s@)
}

/// The characters of a text.
pub fn chars_of(s: &str) -> (r: Vec<char>)
    ensures
        r@ == s@,
{
    let mut r: Vec<char> = Vec::new();
    for c in it: s.chars()
        invariant
            r@ == it.seq().take(it.index()),
            it.seq() == s@,
    {
        r.push(c);
    }
    r
}

/// Whether two texts are the same.
pub fn same_text(a: &str, b: &str) -> (r: bool)
    ensures
        r == (a@ == b@),
{
    let x = chars_of(a);
    let y = chars_of(b);
    if x.len() != y.len() {
        return false;
    }
    let n: usize = x.len();
    let mut i: usize = 0;
    while i < n
        invariant
            i <= n,
            n == x.len(),
            n == y.len(),
            x@ == a@,
            y@ == b@,
            forall|j: int| 0 <= j < i ==> x@[j] == y@[j],
        decreases n - i,
    {
        if x[i] != y[i] {
            return false;
        }
        i = i + 1;
    }
    assert(x@ =~= y@);
    true
}

/// Whether `text` begins with `prefix`.
pub fn has_prefix(text: &str, prefix: &str) -> (r: bool)
    ensures
        r == prefix@.is_prefix_of(text@),
{
    let t = chars_of(text);
    let p = chars_of(prefix);
    if p.len() > t.len() {
        return false;
    }
    window_matches(&t, &p, 0)
}

/// Whether `needle` stands in `hay` at position `at`.
fn window_matches(hay: &Vec<char>, needle: &Vec<char>, at: usize) -> (r: bool)
    requires
        at + needle@.len() <= hay@.len(),
    ensures
        r == occurs_at(needle@, hay@, at as int),
{
    let total: usize = hay.len();
    let n: usize = needle.len();
    let mut i: usize = 0;
    while i < n
        invariant
            i <= n,
            n == needle@.len(),
            at + n <= total,
            total == hay@.len(),
            forall|j: int| 0 <= j < i ==> hay@[at + j] == #[trigger] needle@[j],
        decreases n - i,
    {
        if hay[at + i] != needle[i] {
            assert(hay@.subrange(at as int, at + n)[i as int] != needle@[i as int]);
            return false;
        }
        i = i + 1;
    }
    assert(hay@.subrange(at as int, at + n) =~= needle@);
    true
}

/// Whether `needle` occurs anywhere in `hay`.
pub fn contains_text(hay: &str, needle: &str) -> (r: bool)
    ensures
        r == occurs_in(needle@, hay@),
{
    let h = chars_of(hay);
    let n = chars_of(needle);
    if n.len() > h.len() {
        return false;
    }
    let last: usize = h.len() - n.len();
    let mut i: usize = 0;
    while i <= last
        invariant
            i <= last + 1,
            last + n@.len() == h@.len(),
            h@ == hay@,
            n@ == needle@,
            forall|j: int| 0 <= j < i ==> !occurs_at(needle@, hay@, j),
        decreases last + 1 - i,
    {
        if window_matches(&h, &n, i) {
            return true;
        }
        if i == last {
            return false;
        }
        i = i + 1;
    }
    false
}

/// The text of one decimal digit.
fn digit_text(d: u64) -> (r: &'static str)
    requires
        d < 10,
    ensures
        r@ == seq![digit_char(d as nat)],
{
    proof {
        reveal_strlit("0");
        reveal_strlit("1");
        reveal_strlit("2");
        reveal_strlit("3");
        reveal_strlit("4");
        reveal_strlit("5");
        reveal_strlit("6");
        reveal_strlit("7");
        reveal_strlit("8");
        reveal_strlit("9");
    }
    let r = if d == 0 {
        "0"
    } else if d == 1 {
        "1"
    } else if d == 2 {
        "2"
    } else if d == 3 {
        "3"
    } else if d == 4 {
        "4"
    } else if d == 5 {
        "5"
    } else if d == 6 {
        "6"
    } else if d == 7 {
        "7"
    } else if d == 8 {
        "8"
    } else {
        "9"
    };
    assert(r@ =~= seq![digit_char(d as nat)]);
    r
}

/// A number in decimal notation.
pub fn decimal_text(n: u64) -> (r: String)
    ensures
        r@ == decimal(n as nat),
    decreases n,
{
    if n < 10 {
        let r: String = digit_text(n).to_string();
        assert(r@ =~= decimal(n as nat));
        r
    } else {
        let mut r: String = decimal_text(n / 10);
        r.append(digit_text(n % 10));
        assert(r@ =~= decimal(n as nat));
        r
    }
}

/// The ranges of the pieces of `chars` between occurrences of `sep`.
pub fn split_ranges(chars: &Vec<char>, sep: char) -> (r: Vec<(usize, usize)>)
    ensures
        r@.len() == split(chars@, sep).len(),
        forall|k: int|
            0 <= k < r@.len() ==> {
                &&& (#[trigger] r@[k]).0 <= r@[k].1 <= chars@.len()
                &&& chars@.subrange(r@[k].0 as int, r@[k].1 as int) == split(chars@, sep)[k]
            },
{
    let mut done: Vec<(usize, usize)> = Vec::new();
    let mut start: usize = 0;
    let n: usize = chars.len();
    let mut i: usize = 0;
    while i < n
        invariant
            start <= i <= n,
            n == chars@.len(),
            split(chars@.take(i as int), sep).len() == done@.len() + 1,
            split(chars@.take(i as int), sep).last() == chars@.subrange(start as int, i as int),
            forall|k: int|
                0 <= k < done@.len() ==> {
                    &&& (#[trigger] done@[k]).0 <= done@[k].1 <= chars@.len()
                    &&& chars@.subrange(done@[k].0 as int, done@[k].1 as int) == split(
                        chars@.take(i as int),
                        sep,
                    )[k]
                },
        decreases n - i,
    {
        let ghost before = chars@.take(i as int);
        let ghost after = chars@.take(i + 1);
        assert(after.drop_last() =~= before);
        assert(after.last() == chars@[i as int]);
        if chars[i] == sep {
            done.push((start, i));
            start = i + 1;
            assert(chars@.subrange(start as int, i + 1) =~= Seq::<char>::empty());
        } else {
            assert(chars@.subrange(start as int, i + 1) =~= chars@.subrange(
                start as int,
                i as int,
            ).push(chars@[i as int]));
        }
        i = i + 1;
    }
    assert(chars@.take(n as int) =~= chars@);
    done.push((start, n));
    done
}

/// The number of bytes of a text in UTF-8.
pub open spec fn byte_len(s: Seq<char>) -> nat {
    encode_utf8(s).len()
}

/// The number of bytes of a character in UTF-8.
pub open spec fn char_len(c: char) -> nat {
    encode_scalar(c as u32).len()
}

proof fn lemma_encode_push(s: Seq<char>, c: char)
    ensures
        encode_utf8(s.push(c)) == encode_utf8(s) + encode_scalar(c as u32),
    decreases s.len(),
{
    let all = s.push(c);
    if s.len() == 0 {
        assert(all.drop_first() =~= Seq::<char>::empty());
        assert(encode_utf8(all.drop_first()) =~= Seq::<u8>::empty());
        assert(encode_utf8(s) =~= Seq::<u8>::empty());
        assert(encode_scalar(c as u32) + Seq::<u8>::empty() =~= Seq::<u8>::empty() + encode_scalar(
            c as u32,
        ));
    } else {
        lemma_encode_push(s.drop_first(), c);
        assert(all.drop_first() =~= s.drop_first().push(c));
        assert(all[0] == s[0]);
        assert(encode_scalar(s[0] as u32) + (encode_utf8(s.drop_first()) + encode_scalar(c as u32))
            =~= (encode_scalar(s[0] as u32) + encode_utf8(s.drop_first())) + encode_scalar(
            c as u32,
        ));
    }
}

/// A character adds its own bytes to a text.
pub proof fn lemma_byte_len_push(s: Seq<char>, c: char)
    ensures
        byte_len(s.push(c)) == byte_len(s) + char_len(c),
        1 <= char_len(c) <= 4,
{
    lemma_encode_push(s, c);
}

/// The number of bytes of a character in UTF-8.
pub fn char_width(c: char) -> (r: usize)
    ensures
        r == char_len(c),
{
    let v: u32 = c as u32;
    if v <= 0x7F {
        1
    } else if v <= 0x7FF {
        2
    } else if v <= 0xFFFF {
        3
    } else {
        4
    }
}

/// The Unicode property White_Space.
pub open spec fn is_white(c: char) -> bool {
    let v = c as u32;
    ||| 0x9 <= v <= 0xD
    ||| v == 0x20
    ||| v == 0x85
    ||| v == 0xA0
    ||| v == 0x1680
    ||| 0x2000 <= v <= 0x200A
    ||| v == 0x2028
    ||| v == 0x2029
    ||| v == 0x202F
    ||| v == 0x205F
    ||| v == 0x3000
}

/// Whether a character is white space.
pub fn white(c: char) -> (r: bool)
    ensures
        r == is_white(c),
{
    let v: u32 = c as u32;
    (0x9 <= v && v <= 0xD) || v == 0x20 || v == 0x85 || v == 0xA0 || v == 0x1680 || (0x2000 <= v && v
        <= 0x200A) || v == 0x2028 || v == 0x2029 || v == 0x202F || v == 0x205F || v == 0x3000
}

/// A text without anything but white space.
pub open spec fn is_blank(s: Seq<char>) -> bool {
    forall|i: int| 0 <= i < s.len() ==> is_white(#[trigger] s[i])
}

/// The number of lines of a text: what follows the last line feed is a line only if not empty.
pub open spec fn line_count(s: Seq<char>) -> int {
    let parts = split(s, '\n');
    if parts.last().len() == 0 {
        parts.len() - 1
    } else {
        parts.len() as int
    }
}

/// Line `k` of a text, without its line feed. A carriage return in front of that belongs to the line.
pub open spec fn line(s: Seq<char>, k: int) -> Seq<char> {
    split(s, '\n')[k]
}

/// What is known of a line: its length in bytes and whether it is blank.
pub struct LineInfo {
    pub bytes: usize,
    pub blank: bool,
}

/// The number of bytes of the characters of a range, and whether they are all white space.
fn measure(chars: &Vec<char>, from: usize, to: usize, limit: usize) -> (r: LineInfo)
    requires
        from <= to <= chars@.len(),
        byte_len(chars@.subrange(from as int, to as int)) <= limit,
    ensures
        r.bytes == byte_len(chars@.subrange(from as int, to as int)),
        r.blank == is_blank(chars@.subrange(from as int, to as int)),
{
    let ghost range = chars@.subrange(from as int, to as int);
    let mut bytes: usize = 0;
    let mut blank: bool = true;
    let mut i: usize = from;
    while i < to
        invariant
            from <= i <= to <= chars@.len(),
            range == chars@.subrange(from as int, to as int),
            byte_len(range) <= limit,
            bytes == byte_len(range.take(i - from)),
            blank == is_blank(range.take(i - from)),
        decreases to - i,
    {
        let c: char = chars[i];
        proof {
            let before = range.take(i - from);
            let after = range.take(i + 1 - from);
            assert(after =~= before.push(c));
            lemma_byte_len_push(before, c);
            lemma_byte_len_take(range, i + 1 - from);
            if is_blank(after) {
                assert(forall|j: int| 0 <= j < before.len() ==> before[j] == after[j]);
                assert(after[i - from] == c);
            }
        }
        bytes = bytes + char_width(c);
        blank = blank && white(c);
        i = i + 1;
    }
    assert(range.take(to - from) =~= range);
    LineInfo { bytes, blank }
}

/// A part of a text from its start has no more bytes than the text.
pub proof fn lemma_byte_len_take(s: Seq<char>, n: int)
    requires
        0 <= n <= s.len(),
    ensures
        byte_len(s.take(n)) <= byte_len(s),
    decreases s.len() - n,
{
    if n == s.len() {
        assert(s.take(n) =~= s);
    } else {
        lemma_byte_len_take(s, n + 1);
        lemma_byte_len_push(s.take(n), s[n]);
        assert(s.take(n + 1) =~= s.take(n).push(s[n]));
    }
}

/// The bytes of the first `k` pieces, each with its separator.
pub open spec fn pieces_bytes(parts: Seq<Seq<char>>, k: int) -> nat
    decreases k,
{
    if k <= 0 {
        0
    } else {
        pieces_bytes(parts, k - 1) + byte_len(parts[k - 1]) + 1
    }
}

proof fn lemma_pieces_bytes_same(p: Seq<Seq<char>>, q: Seq<Seq<char>>, k: int)
    requires
        k <= p.len(),
        k <= q.len(),
        forall|i: int| 0 <= i < k ==> p[i] == q[i],
    ensures
        pieces_bytes(p, k) == pieces_bytes(q, k),
    decreases k,
{
    if k > 0 {
        lemma_pieces_bytes_same(p, q, k - 1);
    }
}

/// Pieces and separators together are the text.
pub proof fn lemma_pieces_bytes_total(s: Seq<char>, sep: char)
    requires
        char_len(sep) == 1,
    ensures
        pieces_bytes(split(s, sep), split(s, sep).len() - 1) + byte_len(split(s, sep).last())
            == byte_len(s),
    decreases s.len(),
{
    let parts = split(s, sep);
    if s.len() == 0 {
        assert(parts.last() =~= s);
    } else {
        let init = s.drop_last();
        let front = split(init, sep);
        lemma_split_nonempty(init, sep);
        lemma_pieces_bytes_total(init, sep);
        lemma_byte_len_push(init, s.last());
        assert(init.push(s.last()) =~= s);
        if s.last() == sep {
            lemma_pieces_bytes_same(front, parts, front.len() as int);
            lemma_pieces_bytes_same(front, parts, front.len() - 1);
            assert(byte_len(Seq::<char>::empty()) == 0);
        } else {
            lemma_byte_len_push(front.last(), s.last());
            lemma_pieces_bytes_same(front, parts, front.len() - 1);
        }
    }
}

proof fn lemma_pieces_bytes_mono(parts: Seq<Seq<char>>, j: int, k: int)
    requires
        0 <= j <= k,
    ensures
        pieces_bytes(parts, j) <= pieces_bytes(parts, k),
    decreases k,
{
    if j < k {
        lemma_pieces_bytes_mono(parts, j, k - 1);
    }
}

/// Where line `k` of a text starts: the bytes of the lines before it, with their line feeds.
pub open spec fn line_start(s: Seq<char>, k: int) -> nat {
    pieces_bytes(split(s, '\n'), k)
}

/// A line starts behind all lines before it.
pub proof fn lemma_line_start_grows(s: Seq<char>, j: int, k: int)
    requires
        0 <= j < k,
    ensures
        line_start(s, j) < line_start(s, k),
{
    lemma_pieces_bytes_mono(split(s, '\n'), j + 1, k);
}

/// The lines of a text lie within it.
pub proof fn lemma_line_within(s: Seq<char>, k: int)
    requires
        0 <= k < line_count(s),
    ensures
        line_start(s, k) + byte_len(line(s, k)) <= byte_len(s),
        k + 1 < line_count(s) ==> line_start(s, k + 1) == line_start(s, k) + byte_len(line(s, k))
            + 1,
{
    let parts = split(s, '\n');
    lemma_pieces_bytes_total(s, '\n');
    lemma_pieces_bytes_mono(parts, k, parts.len() - 1);
    if k < parts.len() - 1 {
        lemma_pieces_bytes_mono(parts, k + 1, parts.len() - 1);
    }
}

/// The lines of a text of at most `limit` bytes.
pub fn line_infos(chars: &Vec<char>, limit: usize) -> (r: Vec<LineInfo>)
    requires
        byte_len(chars@) <= limit,
    ensures
        r@.len() == line_count(chars@),
        forall|k: int|
            0 <= k < r@.len() ==> {
                &&& (#[trigger] r@[k]).bytes == byte_len(line(chars@, k))
                &&& r@[k].blank == is_blank(line(chars@, k))
            },
{
    let ranges = split_ranges(chars, '\n');
    proof {
        lemma_split_nonempty(chars@, '\n');
    }
    let ghost parts = split(chars@, '\n');
    let n: usize = ranges.len();
    assert(ranges@[n - 1].0 <= ranges@[n - 1].1);
    let count: usize = if ranges[n - 1].0 == ranges[n - 1].1 {
        n - 1
    } else {
        n
    };
    let mut infos: Vec<LineInfo> = Vec::new();
    let mut k: usize = 0;
    while k < count
        invariant
            k <= count <= n,
            n == ranges@.len(),
            n == parts.len(),
            count == line_count(chars@),
            parts == split(chars@, '\n'),
            byte_len(chars@) <= limit,
            infos@.len() == k,
            forall|j: int|
                0 <= j < n ==> {
                    &&& (#[trigger] ranges@[j]).0 <= ranges@[j].1 <= chars@.len()
                    &&& chars@.subrange(ranges@[j].0 as int, ranges@[j].1 as int) == parts[j]
                },
            forall|j: int|
                0 <= j < k ==> {
                    &&& (#[trigger] infos@[j]).bytes == byte_len(line(chars@, j))
                    &&& infos@[j].blank == is_blank(line(chars@, j))
                },
        decreases count - k,
    {
        let (from, to) = ranges[k];
        assert(ranges@[k as int] == (from, to));
        proof {
            lemma_line_within(chars@, k as int);
        }
        infos.push(measure(chars, from, to, limit));
        k = k + 1;
    }
    infos
}

/// A text without the separator is one piece, and what is in front of a separator is split apart
/// from what is behind it.
pub proof fn law_split_parts_at_separators(a: Seq<char>, b: Seq<char>, sep: char)
    ensures
        split(a.push(sep) + b, sep) == split(a, sep) + split(b, sep),
        !a.contains(sep) ==> split(a, sep) == seq![a],
    decreases a.len() + b.len(),
{
    if b.len() == 0 {
        assert(a.push(sep) + b =~= a.push(sep));
        assert(a.push(sep).drop_last() =~= a);
        assert(split(a.push(sep), sep) =~= split(a, sep) + split(b, sep));
    } else {
        let front = b.drop_last();
        law_split_parts_at_separators(a, front, sep);
        lemma_split_nonempty(front, sep);
        assert((a.push(sep) + b).drop_last() =~= a.push(sep) + front);
        assert(split(a.push(sep) + b, sep) =~= split(a, sep) + split(b, sep));
    }
    if !a.contains(sep) {
        lemma_split_whole(a, sep);
    }
}

proof fn lemma_split_whole(a: Seq<char>, sep: char)
    requires
        !a.contains(sep),
    ensures
        split(a, sep) == seq![a],
    decreases a.len(),
{
    if a.len() == 0 {
        assert(a =~= Seq::empty());
    } else {
        let front = a.drop_last();
        assert(!front.contains(sep)) by {
            if front.contains(sep) {
                let i = choose|i: int| 0 <= i < front.len() && front[i] == sep;
                assert(a[i] == sep);
            }
        }
        lemma_split_whole(front, sep);
        assert(a.contains(a.last()));
        assert(front.push(a.last()) =~= a);
        assert(split(a, sep) =~= seq![a]);
    }
}

/// A number in decimal notation has digits only, starts with a zero only if it is zero, and reads
/// as the number.
pub proof fn law_decimal_reads_back(n: nat)
    ensures
        decimal_value(decimal(n)) == n,
        all_digits(decimal(n)),
        decimal(n).len() > 0,
        decimal(n)[0] == '0' <==> n == 0,
        n == 0 ==> decimal(n).len() == 1,
    decreases n,
{
    if n < 10 {
        assert(decimal(n).drop_last() =~= Seq::<char>::empty());
        assert(decimal_value(decimal(n).drop_last()) == 0);
        assert(decimal(n).last() == digit_char(n));
    } else {
        law_decimal_reads_back(n / 10);
        assert(decimal(n).drop_last() =~= decimal(n / 10));
        assert(decimal(n).last() == digit_char(n % 10));
    }
}

/// A digit behind others makes the number ten times as great and adds itself; a zero in front makes
/// no difference.
pub proof fn law_digits_count_by_place(digits: Seq<char>, c: char)
    ensures
        decimal_value(Seq::<char>::empty()) == 0,
        '0' <= c <= '9' ==> decimal_value(digits.push(c)) == 10 * decimal_value(digits) + (c as int
            - 48),
        decimal_value(seq!['0'] + digits) == decimal_value(digits),
        all_digits(digits.push(c)) <==> all_digits(digits) && 48 <= c as int <= 57,
    decreases digits.len(),
{
    assert(digits.push(c).drop_last() =~= digits);
    let zero = seq!['0'] + digits;
    if digits.len() == 0 {
        assert(zero.drop_last() =~= Seq::<char>::empty());
        assert(decimal_value(zero.drop_last()) == 0);
        assert(zero.last() == '0');
    } else {
        law_digits_count_by_place(digits.drop_last(), c);
        assert(zero.drop_last() =~= seq!['0'] + digits.drop_last());
    }
    if all_digits(digits.push(c)) {
        assert forall|i: int| 0 <= i < digits.len() implies '0' <= #[trigger] digits[i] <= '9' by {
            assert(digits.push(c)[i] == digits[i]);
        }
        assert(digits.push(c)[digits.len() as int] == c);
    }
}

/// A character has one byte up to 127, two up to 2047, three up to 65535, and four beyond.
pub proof fn law_character_bytes(c: char)
    ensures
        char_len(c) == 1 <==> (c as u32) < 128,
        char_len(c) == 2 <==> 128 <= (c as u32) < 2048,
        char_len(c) == 3 <==> 2048 <= (c as u32) < 65536,
        char_len(c) == 4 <==> 65536 <= (c as u32),
{
}

/// White space are the tabulators, the line and page breaks, the spaces of Unicode, and nothing else;
/// a text is blank as long as nothing but those is added.
pub proof fn law_white_space(s: Seq<char>, c: char)
    ensures
        is_white(c) <==> seq![
            9int,
            10,
            11,
            12,
            13,
            32,
            133,
            160,
            5760,
            8192,
            8193,
            8194,
            8195,
            8196,
            8197,
            8198,
            8199,
            8200,
            8201,
            8202,
            8232,
            8233,
            8239,
            8287,
            12288,
        ].contains(c as int),
        is_blank(Seq::empty()),
        is_blank(s.push(c)) <==> is_blank(s) && is_white(c),
{
    let all = seq![
        9int,
        10,
        11,
        12,
        13,
        32,
        133,
        160,
        5760,
        8192,
        8193,
        8194,
        8195,
        8196,
        8197,
        8198,
        8199,
        8200,
        8201,
        8202,
        8232,
        8233,
        8239,
        8287,
        12288,
    ];
    assert(all[0] == 9 && all[1] == 10 && all[2] == 11 && all[3] == 12 && all[4] == 13);
    assert(all[5] == 32 && all[6] == 133 && all[7] == 160 && all[8] == 5760 && all[9] == 8192);
    assert(all[10] == 8193 && all[11] == 8194 && all[12] == 8195 && all[13] == 8196);
    assert(all[14] == 8197 && all[15] == 8198 && all[16] == 8199 && all[17] == 8200);
    assert(all[18] == 8201 && all[19] == 8202 && all[20] == 8232 && all[21] == 8233);
    assert(all[22] == 8239 && all[23] == 8287 && all[24] == 12288);
    if is_blank(s.push(c)) {
        assert forall|i: int| 0 <= i < s.len() implies is_white(#[trigger] s[i]) by {
            assert(s.push(c)[i] == s[i]);
        }
        assert(s.push(c)[s.len() as int] == c);
    }
}

/// A text has as many lines as line feeds, and one more where something follows the last of them.
pub proof fn law_lines_are_counted(s: Seq<char>)
    ensures
        line_count(s) == s.filter(|c: char| c == '\n').len() + if s.len() > 0 && s.last() != '\n' {
            1int
        } else {
            0int
        },
        split(s, '\n').len() == s.filter(|c: char| c == '\n').len() + 1,
        split(s, '\n').last().len() == 0 <==> s.len() == 0 || s.last() == '\n',
    decreases s.len(),
{
    reveal(Seq::filter);
    if s.len() > 0 {
        law_lines_are_counted(s.drop_last());
    }
}

/// The lines stand in the bytes of a text where they are said to: from its start on the bytes of a
/// line are those of its characters, and a line feed ends it unless it is the last.
pub proof fn law_lines_stand_in_the_text(s: Seq<char>, k: int)
    requires
        0 <= k < split(s, '\n').len(),
    ensures
        line_start(s, k) + byte_len(line(s, k)) <= encode_utf8(s).len(),
        encode_utf8(s).subrange(
            line_start(s, k) as int,
            (line_start(s, k) + byte_len(line(s, k))) as int,
        ) == encode_utf8(line(s, k)),
        k == 0 ==> line_start(s, k) == 0,
        k < split(s, '\n').len() - 1 ==> {
            &&& line_start(s, k) + byte_len(line(s, k)) < encode_utf8(s).len()
            &&& encode_utf8(s)[(line_start(s, k) + byte_len(line(s, k))) as int] == 10
            &&& line_start(s, k + 1) == line_start(s, k) + byte_len(line(s, k)) + 1
        },
        k == split(s, '\n').len() - 1 ==> line_start(s, k) + byte_len(line(s, k)) == encode_utf8(
            s,
        ).len(),
    decreases s.len(),
{
    let parts = split(s, '\n');
    let at = line_start(s, k) as int;
    let size = byte_len(line(s, k)) as int;
    lemma_line_feed();
    if s.len() == 0 {
        assert(parts[0] =~= s);
        assert(encode_utf8(s) =~= Seq::<u8>::empty());
        assert(encode_utf8(s).subrange(at, at + size) =~= encode_utf8(line(s, k)));
    } else {
        let c = s.last();
        let init = s.drop_last();
        let front = split(init, '\n');
        let m = front.len() - 1;
        lemma_split_nonempty(init, '\n');
        lemma_encode_push(init, c);
        assert(init.push(c) =~= s);
        lemma_pieces_bytes_total(init, '\n');
        lemma_pieces_bytes_same(front, parts, m);
        if k < m {
            law_lines_stand_in_the_text(init, k);
            lemma_pieces_bytes_same(front, parts, k);
            assert(line(s, k) == line(init, k));
            assert(encode_utf8(s).subrange(at, at + size) =~= encode_utf8(init).subrange(
                at,
                at + size,
            ));
        } else if k == m {
            law_lines_stand_in_the_text(init, m);
            let last = front.last();
            if c == '\n' {
                assert(line(s, k) == last);
                assert(encode_utf8(s).subrange(at, at + size) =~= encode_utf8(init).subrange(
                    at,
                    at + size,
                ));
                assert(at + size == encode_utf8(init).len());
                assert(encode_utf8(s)[at + size] == 10);
            } else {
                lemma_encode_push(last, c);
                assert(line(s, k) == last.push(c));
                assert(encode_utf8(init).subrange(at, encode_utf8(init).len() as int)
                    == encode_utf8(last));
                assert(encode_utf8(s).subrange(at, at + size) =~= encode_utf8(last) + encode_scalar(
                    c as u32,
                ));
            }
        } else {
            lemma_pieces_bytes_same(front, parts, m + 1);
            assert(line(s, k) =~= Seq::<char>::empty());
            assert(encode_utf8(line(s, k)) =~= Seq::<u8>::empty());
            assert(encode_utf8(s).subrange(at, at + size) =~= Seq::<u8>::empty());
        }
    }
}

proof fn lemma_line_feed()
    ensures
        encode_scalar(10) == seq![10u8],
{
    assert(10u32 & 0x7F == 10) by (bit_vector);
    assert(encode_scalar(10) =~= seq![10u8]);
}

} // verus!
