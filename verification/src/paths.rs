//! Paths: their steps, parted by slashes and by what else the system parts them with. A drive or a
//! share in front of a path counts as steps of it.

use vstd::prelude::*;

use crate::text::chars_of;
use crate::text::split_ranges;

verus! {

use crate::text::law_split_parts_at_separators;
use crate::text::lemma_split_apart;
use crate::text::lemma_split_nonempty;
use crate::text::split;

/// The system parts the steps of a path at this character, besides the slash. It is settled by the
/// system that the program is built for.
pub uninterp spec fn separates(c: char) -> bool;

/// `std::path::is_separator`: the slash parts the steps of a path on every system, the backslash on
/// some, and no other character does.
#[verifier::external_body]
fn is_separator(c: char) -> (r: bool)
    ensures
        r == (c == '/' || c == '\\' && separates(c)),
{
    std::path::is_separator(c)
}

/// The character parts the steps of a path.
pub open spec fn parts_steps(c: char) -> bool {
    c == '/' || c == '\\' && separates(c)
}

/// The path with a slash for each character that parts its steps.
pub open spec fn slashed(path: Seq<char>) -> Seq<char> {
    path.map_values(
        |c: char|
            if parts_steps(c) {
                '/'
            } else {
                c
            },
    )
}

/// A path without backslashes is read the same way on every system.
pub proof fn law_slash_paths(path: Seq<char>)
    requires
        !path.contains('\\'),
    ensures
        slashed(path) == path,
{
    assert forall|i: int| 0 <= i < path.len() implies slashed(path)[i] == path[i] by {
        assert(path.contains(path[i]));
    }
    assert(slashed(path) =~= path);
}

/// A piece between slashes names a step of the path. Empty pieces do not, nor does `.`
/// anywhere but at the very start.
pub open spec fn significant(piece: Seq<char>, index: int) -> bool {
    piece.len() > 0 && (piece != seq!['.'] || index == 0)
}

/// The significant ones among the first `n` pieces.
pub open spec fn significant_pieces(pieces: Seq<Seq<char>>, n: nat) -> Seq<Seq<char>>
    decreases n,
{
    if n == 0 {
        Seq::empty()
    } else {
        let front = significant_pieces(pieces, (n - 1) as nat);
        if significant(pieces[n - 1], n - 1) {
            front.push(pieces[n - 1])
        } else {
            front
        }
    }
}

/// The steps of a path, without the root.
pub open spec fn components(path: Seq<char>) -> Seq<Seq<char>> {
    significant_pieces(split(slashed(path), '/'), split(slashed(path), '/').len())
}

/// The path starts at the root.
pub open spec fn is_rooted(path: Seq<char>) -> bool {
    path.len() > 0 && parts_steps(path[0])
}

/// Two spellings of one path: same root, same steps.
pub open spec fn same_path_spec(a: Seq<char>, b: Seq<char>) -> bool {
    is_rooted(a) == is_rooted(b) && components(a) == components(b)
}

/// The last step of a path, unless that is `.` or `..`.
pub open spec fn file_name_spec(path: Seq<char>) -> Option<Seq<char>> {
    let steps = components(path);
    if steps.len() == 0 || steps.last() == seq!['.'] || steps.last() == seq!['.', '.'] {
        None
    } else {
        Some(steps.last())
    }
}

/// What follows the last dot of a file name; a name whose only dot comes first has none.
pub open spec fn extension_of_name(name: Seq<char>) -> Option<Seq<char>> {
    let parts = split(name, '.');
    if parts.len() == 1 || (parts.len() == 2 && parts[0].len() == 0) {
        None
    } else {
        Some(parts.last())
    }
}

/// The extension of a path's file name.
pub open spec fn extension_spec(path: Seq<char>) -> Option<Seq<char>> {
    match file_name_spec(path) {
        Some(name) => extension_of_name(name),
        None => None,
    }
}

/// The path with a slash for each character that parts its steps.
fn with_slashes(chars: &Vec<char>) -> (r: Vec<char>)
    ensures
        r@ == slashed(chars@),
{
    let n: usize = chars.len();
    let mut r: Vec<char> = Vec::new();
    let mut i: usize = 0;
    while i < n
        invariant
            i <= n,
            n == chars@.len(),
            r@ == slashed(chars@).take(i as int),
        decreases n - i,
    {
        let c: char = if is_separator(chars[i]) {
            '/'
        } else {
            chars[i]
        };
        r.push(c);
        i = i + 1;
        assert(slashed(chars@).take(i as int) =~= slashed(chars@).take(i - 1).push(c));
    }
    assert(slashed(chars@).take(n as int) =~= slashed(chars@));
    r
}

/// A step of a path stands in the path as it does where slashes part it.
proof fn lemma_step_stands(path: Seq<char>, from: int, to: int, k: int)
    requires
        0 <= from <= to <= path.len(),
        0 <= k < components(path).len(),
        slashed(path).subrange(from, to) == components(path)[k],
    ensures
        path.subrange(from, to) == components(path)[k],
{
    let pieces = split(slashed(path), '/');
    let step = components(path)[k];
    lemma_significant(pieces, pieces.len(), k);
    let i = choose|i: int| 0 <= i < pieces.len() && #[trigger] pieces[i] == step;
    assert forall|j: int| 0 <= j < step.len() implies path.subrange(from, to)[j] == step[j] by {
        lemma_split_apart(slashed(path), '/', i);
        assert(pieces[i][j] != '/');
        assert(slashed(path)[from + j] == step[j]);
    }
    assert(path.subrange(from, to) =~= step);
}

/// A significant piece is a piece.
proof fn lemma_significant(pieces: Seq<Seq<char>>, n: nat, k: int)
    requires
        n <= pieces.len(),
        0 <= k < significant_pieces(pieces, n).len(),
    ensures
        exists|i: int| 0 <= i < pieces.len() && #[trigger] pieces[i] == significant_pieces(pieces, n)[k],
    decreases n,
{
    if n > 0 {
        let front = significant_pieces(pieces, (n - 1) as nat);
        if k < front.len() {
            lemma_significant(pieces, (n - 1) as nat, k);
        } else {
            assert(pieces[n - 1] == significant_pieces(pieces, n)[k]);
        }
    }
}

/// The ranges of the steps of a path.
fn component_ranges(chars: &Vec<char>) -> (r: Vec<(usize, usize)>)
    ensures
        r@.len() == components(chars@).len(),
        forall|k: int|
            0 <= k < r@.len() ==> {
                &&& (#[trigger] r@[k]).0 <= r@[k].1 <= chars@.len()
                &&& chars@.subrange(r@[k].0 as int, r@[k].1 as int) == components(chars@)[k]
            },
{
    let marked = with_slashes(chars);
    let pieces = split_ranges(&marked, '/');
    let n: usize = pieces.len();
    let ghost all = split(marked@, '/');
    let mut kept: Vec<(usize, usize)> = Vec::new();
    let mut i: usize = 0;
    while i < n
        invariant
            i <= n,
            n == pieces@.len(),
            marked@ == slashed(chars@),
            all == split(marked@, '/'),
            all.len() == n,
            forall|k: int|
                0 <= k < n ==> {
                    &&& (#[trigger] pieces@[k]).0 <= pieces@[k].1 <= marked@.len()
                    &&& marked@.subrange(pieces@[k].0 as int, pieces@[k].1 as int) == all[k]
                },
            kept@.len() == significant_pieces(all, i as nat).len(),
            forall|k: int|
                0 <= k < kept@.len() ==> {
                    &&& (#[trigger] kept@[k]).0 <= kept@[k].1 <= marked@.len()
                    &&& marked@.subrange(kept@[k].0 as int, kept@[k].1 as int)
                        == significant_pieces(all, i as nat)[k]
                },
        decreases n - i,
    {
        let (from, to) = pieces[i];
        let ghost piece = all[i as int];
        assert(marked@.subrange(from as int, to as int) == piece);
        assert(piece.len() == to - from);
        let is_dot: bool = to - from == 1 && marked[from] == '.';
        assert(is_dot == (piece == seq!['.'])) by {
            if is_dot {
                assert(piece =~= seq!['.']);
            }
            if piece == seq!['.'] {
                assert(piece[0] == marked@[from as int]);
            }
        }
        if from < to && (!is_dot || i == 0) {
            kept.push((from, to));
        }
        i = i + 1;
    }
    proof {
        assert forall|k: int| 0 <= k < kept@.len() implies {
            &&& (#[trigger] kept@[k]).0 <= kept@[k].1 <= chars@.len()
            &&& chars@.subrange(kept@[k].0 as int, kept@[k].1 as int) == components(chars@)[k]
        } by {
            lemma_step_stands(chars@, kept@[k].0 as int, kept@[k].1 as int, k);
        }
    }
    kept
}

/// Whether two texts spell the same path.
pub fn same_path(a: &str, b: &str) -> (r: bool)
    ensures
        r == same_path_spec(a@, b@),
{
    let x = chars_of(a);
    let y = chars_of(b);
    let x_rooted: bool = x.len() > 0 && is_separator(x[0]);
    let y_rooted: bool = y.len() > 0 && is_separator(y[0]);
    if x_rooted != y_rooted {
        return false;
    }
    let xs = component_ranges(&x);
    let ys = component_ranges(&y);
    if xs.len() != ys.len() {
        return false;
    }
    let n: usize = xs.len();
    let mut i: usize = 0;
    while i < n
        invariant
            i <= n,
            n == xs@.len(),
            n == ys@.len(),
            x@ == a@,
            y@ == b@,
            n == components(a@).len(),
            n == components(b@).len(),
            forall|k: int|
                0 <= k < n ==> {
                    &&& (#[trigger] xs@[k]).0 <= xs@[k].1 <= x@.len()
                    &&& x@.subrange(xs@[k].0 as int, xs@[k].1 as int) == components(a@)[k]
                },
            forall|k: int|
                0 <= k < n ==> {
                    &&& (#[trigger] ys@[k]).0 <= ys@[k].1 <= y@.len()
                    &&& y@.subrange(ys@[k].0 as int, ys@[k].1 as int) == components(b@)[k]
                },
            forall|k: int| 0 <= k < i ==> #[trigger] components(a@)[k] == components(b@)[k],
        decreases n - i,
    {
        assert(xs@[i as int].0 <= x@.len());
        assert(ys@[i as int].0 <= y@.len());
        if !same_range(&x, xs[i], &y, ys[i]) {
            return false;
        }
        i = i + 1;
    }
    assert(components(a@) =~= components(b@));
    true
}

/// Whether two ranges hold the same characters.
fn same_range(x: &Vec<char>, p: (usize, usize), y: &Vec<char>, q: (usize, usize)) -> (r: bool)
    requires
        p.0 <= p.1 <= x@.len(),
        q.0 <= q.1 <= y@.len(),
    ensures
        r == (x@.subrange(p.0 as int, p.1 as int) == y@.subrange(q.0 as int, q.1 as int)),
{
    let ghost s = x@.subrange(p.0 as int, p.1 as int);
    let ghost t = y@.subrange(q.0 as int, q.1 as int);
    if p.1 - p.0 != q.1 - q.0 {
        assert(s.len() != t.len());
        return false;
    }
    let n: usize = p.1 - p.0;
    let mut i: usize = 0;
    while i < n
        invariant
            i <= n,
            p.0 + n == p.1,
            q.0 + n == q.1,
            p.1 <= x@.len(),
            q.1 <= y@.len(),
            s == x@.subrange(p.0 as int, p.1 as int),
            t == y@.subrange(q.0 as int, q.1 as int),
            forall|j: int| 0 <= j < i ==> s[j] == t[j],
        decreases n - i,
    {
        if x[p.0 + i] != y[q.0 + i] {
            assert(s[i as int] != t[i as int]);
            return false;
        }
        assert(s[i as int] == t[i as int]);
        i = i + 1;
    }
    assert(s =~= t);
    true
}

/// The file name of a path.
pub fn file_name(path: &str) -> (r: Option<&str>)
    ensures
        r is Some == file_name_spec(path@) is Some,
        r matches Some(name) ==> Some(name@) == file_name_spec(path@),
{
    let chars = chars_of(path);
    let steps = component_ranges(&chars);
    if steps.len() == 0 {
        return None;
    }
    let (from, to) = steps[steps.len() - 1];
    assert(steps@[steps@.len() - 1] == (from, to));
    let ghost last = components(path@).last();
    assert(last == chars@.subrange(from as int, to as int));
    if to - from == 1 && chars[from] == '.' {
        assert(last =~= seq!['.']);
        return None;
    }
    if to - from == 2 && chars[from] == '.' && chars[from + 1] == '.' {
        assert(last =~= seq!['.', '.']);
        return None;
    }
    proof {
        assert(seq!['.'].len() == 1 && seq!['.'][0] == '.');
        assert(seq!['.', '.'].len() == 2 && seq!['.', '.'][0] == '.' && seq!['.', '.'][1] == '.');
        if last == seq!['.'] {
            assert(last[0] == chars@[from as int]);
        }
        if last == seq!['.', '.'] {
            assert(last[0] == chars@[from as int]);
            assert(last[1] == chars@[from + 1]);
        }
    }
    Some(path.substring_char(from, to))
}

/// The extension of a path.
pub fn extension(path: &str) -> (r: Option<&str>)
    ensures
        r is Some == extension_spec(path@) is Some,
        r matches Some(ext) ==> Some(ext@) == extension_spec(path@),
{
    match file_name(path) {
        None => None,
        Some(name) => {
            let chars = chars_of(name);
            let parts = split_ranges(&chars, '.');
            proof {
                lemma_split_nonempty(name@, '.');
            }
            let n: usize = parts.len();
            assert(parts@[0].0 <= parts@[0].1);
            if n == 1 || (n == 2 && parts[0].0 == parts[0].1) {
                return None;
            }
            let (from, to) = parts[n - 1];
            assert(parts@[n - 1] == (from, to));
            Some(name.substring_char(from, to))
        },
    }
}

/// The pieces behind the first that name a step.
spec fn later_steps(pieces: Seq<Seq<char>>, n: nat) -> Seq<Seq<char>>
    decreases n,
{
    if n == 0 {
        Seq::empty()
    } else {
        let front = later_steps(pieces, (n - 1) as nat);
        if pieces[n - 1].len() > 0 && pieces[n - 1] != seq!['.'] {
            front.push(pieces[n - 1])
        } else {
            front
        }
    }
}

proof fn lemma_significant_behind(first: Seq<Seq<char>>, second: Seq<Seq<char>>, n: nat)
    requires
        first.len() > 0,
        n <= second.len(),
    ensures
        significant_pieces(first + second, first.len() + n) == significant_pieces(
            first,
            first.len(),
        ) + later_steps(second, n),
    decreases n,
{
    let all = first + second;
    if n == 0 {
        lemma_significant_same(all, first, first.len());
        assert(significant_pieces(all, first.len() + n) =~= significant_pieces(first, first.len())
            + later_steps(second, n));
    } else {
        lemma_significant_behind(first, second, (n - 1) as nat);
        assert(all[first.len() + n - 1] == second[n - 1]);
        assert(significant_pieces(all, first.len() + n) =~= significant_pieces(first, first.len())
            + later_steps(second, n));
    }
}

proof fn lemma_significant_same(p: Seq<Seq<char>>, q: Seq<Seq<char>>, n: nat)
    requires
        n <= p.len(),
        n <= q.len(),
        forall|i: int| 0 <= i < n ==> p[i] == q[i],
    ensures
        significant_pieces(p, n) == significant_pieces(q, n),
    decreases n,
{
    if n > 0 {
        lemma_significant_same(p, q, (n - 1) as nat);
    }
}

proof fn lemma_steps_behind(dir: Seq<char>, rest: Seq<char>)
    ensures
        components(dir.push('/') + rest) == components(dir) + later_steps(
            split(slashed(rest), '/'),
            split(slashed(rest), '/').len(),
        ),
{
    let first = split(slashed(dir), '/');
    let second = split(slashed(rest), '/');
    assert(slashed(dir.push('/') + rest) =~= slashed(dir).push('/') + slashed(rest));
    law_split_parts_at_separators(slashed(dir), slashed(rest), '/');
    lemma_split_nonempty(slashed(dir), '/');
    lemma_significant_behind(first, second, second.len());
}

/// A name without separators.
pub open spec fn is_plain(name: Seq<char>) -> bool {
    !name.contains('/') && !name.contains('\\')
}

proof fn lemma_plain(name: Seq<char>)
    requires
        is_plain(name),
    ensures
        split(slashed(name), '/') == seq![name],
{
    law_slash_paths(name);
    law_split_parts_at_separators(name, name, '/');
}

/// A name behind a path and a slash is one more step of the path, unless it is empty or a dot: such
/// a one adds nothing.
pub proof fn law_name_is_a_step(dir: Seq<char>, name: Seq<char>)
    requires
        is_plain(name),
    ensures
        name.len() > 0 && name != seq!['.'] ==> components(dir.push('/') + name) == components(
            dir,
        ).push(name),
        name.len() == 0 || name == seq!['.'] ==> components(dir.push('/') + name) == components(dir),
{
    lemma_steps_behind(dir, name);
    lemma_plain(name);
    let parts = seq![name];
    assert(later_steps(parts, 0) =~= Seq::empty());
    assert(parts.len() == 1);
    if name.len() > 0 && name != seq!['.'] {
        assert(later_steps(parts, 1) =~= seq![name]);
        assert(components(dir) + seq![name] =~= components(dir).push(name));
    } else {
        assert(later_steps(parts, 1) =~= Seq::empty());
        assert(components(dir) + Seq::<Seq<char>>::empty() =~= components(dir));
    }
}

/// A path of a name alone has that one step, and an empty path has none.
pub proof fn law_name_alone(name: Seq<char>)
    requires
        is_plain(name),
    ensures
        name.len() > 0 ==> components(name) == seq![name],
        name.len() == 0 ==> components(name) == Seq::<Seq<char>>::empty(),
{
    lemma_plain(name);
    let parts = seq![name];
    assert(significant_pieces(parts, 0) =~= Seq::empty());
    assert(components(name) == significant_pieces(parts, 1));
    if name.len() > 0 {
        assert(significant_pieces(parts, 1) =~= seq![name]);
    }
}

/// What follows a path adds the same steps however the path is spelled.
pub proof fn law_steps_add_up(dir: Seq<char>, other: Seq<char>, rest: Seq<char>)
    requires
        components(dir) == components(other),
    ensures
        components(dir.push('/') + rest) == components(other.push('/') + rest),
{
    lemma_steps_behind(dir, rest);
    lemma_steps_behind(other, rest);
}

/// A path starts at the root exactly if it begins with a slash, or with a backslash where that
/// parts steps.
pub proof fn law_root(path: Seq<char>)
    ensures
        path.len() == 0 ==> !is_rooted(path),
        path.len() > 0 && path[0] == '/' ==> is_rooted(path),
        path.len() > 0 && path[0] != '/' && path[0] != '\\' ==> !is_rooted(path),
        path.len() > 0 && path[0] == '\\' ==> is_rooted(path) == separates('\\'),
{
}

/// A slash at the end, a doubled slash and a dot between slashes make no other path; another name
/// does, and so does a root.
pub proof fn law_same_path(dir: Seq<char>, rest: Seq<char>, name: Seq<char>, other: Seq<char>)
    requires
        dir.len() > 0,
        is_plain(name),
        is_plain(other),
        name.len() > 0,
        other.len() > 0,
        name != seq!['.'],
        other != seq!['.'],
    ensures
        same_path_spec(dir, dir),
        same_path_spec(dir.push('/'), dir),
        same_path_spec(dir.push('/').push('/') + rest, dir.push('/') + rest),
        same_path_spec(dir.push('/').push('.').push('/') + rest, dir.push('/') + rest),
        same_path_spec(dir.push('/') + name, dir.push('/') + other) <==> name == other,
        !same_path_spec(dir.push('/') + name, dir),
        !same_path_spec(seq!['/'] + name, name),
{
    let none = Seq::<char>::empty();
    let dot = seq!['.'];
    assert(!none.contains('/') && !none.contains('\\'));
    assert(!dot.contains('/') && !dot.contains('\\'));
    law_name_is_a_step(dir, none);
    law_name_is_a_step(dir, dot);
    assert(dir.push('/') + none =~= dir.push('/'));
    assert(dir.push('/') + dot =~= dir.push('/').push('.'));
    law_steps_add_up(dir.push('/'), dir, rest);
    law_steps_add_up(dir.push('/').push('.'), dir, rest);
    law_name_is_a_step(dir, name);
    law_name_is_a_step(dir, other);
    let a = components(dir.push('/') + name);
    let b = components(dir.push('/') + other);
    assert(a.last() == name && b.last() == other);
    assert(a.len() == components(dir).len() + 1);
    assert((seq!['/'] + name)[0] == '/');
    assert(name.contains(name[0]));
    assert((dir.push('/') + name)[0] == dir[0] && (dir.push('/') + other)[0] == dir[0]);
    assert((dir.push('/') + rest)[0] == dir[0]);
    assert((dir.push('/').push('/') + rest)[0] == dir[0]);
    assert((dir.push('/').push('.').push('/') + rest)[0] == dir[0]);
}

/// The file name of a path is what follows its last slash; slashes and dots at the end do not count,
/// and two dots are no name.
pub proof fn law_file_name(dir: Seq<char>, name: Seq<char>)
    requires
        is_plain(name),
        name.len() > 0,
        name != seq!['.'],
        name != seq!['.', '.'],
    ensures
        file_name_spec(name) == Some(name),
        file_name_spec(dir.push('/') + name) == Some(name),
        file_name_spec((dir.push('/') + name).push('/')) == Some(name),
        file_name_spec((dir.push('/') + name).push('/').push('.')) == Some(name),
        file_name_spec(dir.push('/').push('.').push('.')) is None,
        file_name_spec(Seq::empty()) is None,
{
    let none = Seq::<char>::empty();
    let dot = seq!['.'];
    let up = seq!['.', '.'];
    let path = dir.push('/') + name;
    assert(!none.contains('/') && !none.contains('\\'));
    assert(!dot.contains('/') && !dot.contains('\\'));
    assert(!up.contains('/') && !up.contains('\\'));
    law_name_alone(name);
    law_name_alone(none);
    law_name_is_a_step(dir, name);
    law_name_is_a_step(path, none);
    law_name_is_a_step(path, dot);
    law_name_is_a_step(dir, up);
    assert(up.len() == 2 && dot.len() == 1);
    assert(path.push('/') + none =~= path.push('/'));
    assert(path.push('/') + dot =~= path.push('/').push('.'));
    assert(dir.push('/') + up =~= dir.push('/').push('.').push('.'));
}

/// The extension of a name is what follows its last dot; a name without a dot, or with none but the
/// first character, has no extension.
pub proof fn law_extension(stem: Seq<char>, ext: Seq<char>)
    requires
        !ext.contains('.'),
    ensures
        stem.len() > 0 ==> extension_of_name(stem.push('.') + ext) == Some(ext),
        extension_of_name(seq!['.'] + ext) is None,
        extension_of_name(ext) is None,
{
    let none = Seq::<char>::empty();
    law_split_parts_at_separators(stem, ext, '.');
    law_split_parts_at_separators(none, ext, '.');
    law_split_parts_at_separators(ext, none, '.');
    lemma_split_nonempty(stem, '.');
    assert(!none.contains('.'));
    assert(none.push('.') + ext =~= seq!['.'] + ext);
    assert(split(none, '.') =~= seq![none]);
    let parts = split(stem.push('.') + ext, '.');
    assert(parts =~= split(stem, '.').push(ext));
    assert((seq![none] + seq![ext]).len() == 2 && (seq![none] + seq![ext])[0].len() == 0);
    if stem.len() > 0 && parts.len() == 2 {
        assert(split(stem, '.').len() == 1);
        lemma_split_one(stem, '.');
    }
}

/// A text of one piece is that piece.
proof fn lemma_split_one(s: Seq<char>, sep: char)
    requires
        split(s, sep).len() == 1,
    ensures
        split(s, sep)[0] == s,
    decreases s.len(),
{
    if s.len() > 0 {
        lemma_split_nonempty(s.drop_last(), sep);
        lemma_split_one(s.drop_last(), sep);
        assert(s.drop_last().push(s.last()) =~= s);
    } else {
        assert(split(s, sep)[0] =~= s);
    }
}

} // verus!
