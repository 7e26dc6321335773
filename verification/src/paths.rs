//! Paths as text: their components, their order, and their file names.

use vstd::prelude::*;

use crate::keys::{Lex, lemma_lex_skip, lex_le, text_units};
use crate::text::push_char;

verus! {

/// The characters of `s`.
pub fn chars_of(s: &str) -> (v: Vec<char>)
    ensures
        v@ == s@,
{
    let mut v: Vec<char> = Vec::new();
    for c in it: s.chars()
        invariant
            v@ == it.seq().take(it.index() as int),
    {
        v.push(c);
    }
    v
}

/// Number of characters before the first `/` of `s` (all of them if none).
pub open spec fn first_slash(s: Seq<char>) -> nat
    decreases s.len(),
{
    if s.len() == 0 {
        0
    } else if s[0] == '/' {
        0
    } else {
        1 + first_slash(s.drop_first())
    }
}

/// `piece` is no component: it is empty (repeated or trailing `/`) or `.`.
pub open spec fn is_skipped_piece(piece: Seq<char>) -> bool {
    piece.len() == 0 || piece == seq!['.']
}

/// The key of one piece between separators: nothing for a skipped piece,
/// `[3, 0]` for the parent directory `..`, and `[4]`, the characters, `[0]`
/// for a normal name.
pub open spec fn piece_key(piece: Seq<char>) -> Seq<u64> {
    if is_skipped_piece(piece) {
        Seq::empty()
    } else if piece == seq!['.', '.'] {
        seq![3u64, 0u64]
    } else {
        seq![4u64] + text_units(piece) + seq![0u64]
    }
}

/// The keys of the pieces of `s` between `/` separators, in order.
pub open spec fn body_key(s: Seq<char>) -> Seq<u64>
    decreases s.len(),
{
    if s.len() == 0 {
        Seq::empty()
    } else {
        let k = first_slash(s);
        if k < s.len() {
            piece_key(s.take(k as int)) + body_key(s.skip(k as int + 1))
        } else {
            piece_key(s)
        }
    }
}

/// The path starts at the root: with `/`.
pub open spec fn has_root(p: Seq<char>) -> bool {
    p.len() > 0 && p[0] == '/'
}

/// The relative path starts with the current directory: with `.` alone or
/// followed by `/`.
pub open spec fn starts_at_cur_dir(p: Seq<char>) -> bool {
    p.len() > 0 && p[0] == '.' && (p.len() == 1 || p[1] == '/')
}

/// The part of the path after a leading root or current-directory mark.
pub open spec fn path_body(p: Seq<char>) -> Seq<char> {
    if has_root(p) || starts_at_cur_dir(p) {
        p.drop_first()
    } else {
        p
    }
}

/// The sort key of a path.
///
/// A path is the sequence of its components: a leading root `/`, or else a
/// leading `.` for the current directory, then the pieces between
/// separators, where empty pieces and `.` are no components and `..` is the
/// parent directory. Paths are ordered by their components, one by one, a
/// prefix before the longer path; the root comes before the current
/// directory, which comes before the parent directory, which comes before any
/// name, and names are ordered by their characters, a prefix first. The key
/// writes each component as units (`[1, 0]` for the root, `[2, 0]` for the
/// current directory, `[3, 0]` for the parent directory, `[4]`, the
/// characters each raised by one, and `[0]` for a name), so that keys in
/// lexicographic order are paths in that order.
pub open spec fn path_key(p: Seq<char>) -> Seq<u64> {
    if has_root(p) {
        seq![1u64, 0u64] + body_key(p.drop_first())
    } else if starts_at_cur_dir(p) {
        seq![2u64, 0u64] + body_key(p.drop_first())
    } else {
        body_key(p)
    }
}

/// The last piece of `s` that is a component, if any.
pub open spec fn last_piece(s: Seq<char>) -> Option<Seq<char>>
    decreases s.len(),
{
    if s.len() == 0 {
        None
    } else {
        let k = first_slash(s);
        let piece = s.take(k as int);
        let rest = if k < s.len() { last_piece(s.skip(k as int + 1)) } else { None };
        if rest is Some {
            rest
        } else if is_skipped_piece(piece) {
            None
        } else {
            Some(piece)
        }
    }
}

/// The file name of a path: its last component when that is a name, and
/// nothing (the empty text) when the path ends in the root, the current
/// directory or the parent directory.
pub open spec fn path_file_name(p: Seq<char>) -> Seq<char> {
    match last_piece(path_body(p)) {
        Some(piece) => if piece == seq!['.', '.'] { Seq::empty() } else { piece },
        None => Seq::empty(),
    }
}

proof fn lemma_first_slash(v: Seq<char>, i: int, j: int)
    requires
        0 <= i <= j <= v.len(),
        forall|t: int| i <= t < j ==> v[t] != '/',
        j == v.len() || v[j] == '/',
    ensures
        first_slash(v.skip(i)) == j - i,
    decreases j - i,
{
    if i < j {
        lemma_first_slash(v, i + 1, j);
        assert(v.skip(i).drop_first() =~= v.skip(i + 1));
    }
}

/// `c` is a name: a non-empty component without `/` that is neither the
/// current directory `.` nor the parent directory `..`.
pub open spec fn is_name(c: Seq<char>) -> bool {
    &&& c.len() > 0
    &&& forall|k: int| 0 <= k < c.len() ==> c[k] != '/'
    &&& c != seq!['.']
    &&& c != seq!['.', '.']
}

/// `a` comes before `b` in character order: at the first place where they
/// differ `a` holds the smaller code point, or `a` is a proper prefix of `b`.
pub open spec fn text_before(a: Seq<char>, b: Seq<char>) -> bool {
    exists|i: int|
        0 <= i <= a.len() && i <= b.len() && #[trigger] a.take(i) == b.take(i) && (
        (i == a.len() && i < b.len()) || (i < a.len() && i < b.len() && (a[i] as u32) < (b[i] as u32)))
}

/// What may follow a component: nothing, or a separator and more.
pub open spec fn ends_component(s: Seq<char>) -> bool {
    s.len() == 0 || s[0] == '/'
}

/// What may stand before a component: nothing, or text ending in a separator.
pub open spec fn leads_component(x: Seq<char>) -> bool {
    x.len() == 0 || x.last() == '/'
}

proof fn lemma_first_slash_below(u: Seq<char>)
    requires
        u.len() > 0,
        u.last() == '/',
    ensures
        first_slash(u) < u.len(),
    decreases u.len(),
{
    if u[0] != '/' {
        assert(u.drop_first().last() == u.last());
        lemma_first_slash_below(u.drop_first());
    }
}

proof fn lemma_first_slash_prefix(u: Seq<char>, y: Seq<char>)
    requires
        first_slash(u) < u.len(),
    ensures
        first_slash(u + y) == first_slash(u),
    decreases u.len(),
{
    if u[0] != '/' {
        assert((u + y).drop_first() =~= u.drop_first() + y);
        lemma_first_slash_prefix(u.drop_first(), y);
    }
}

/// Text that ends in a separator keys its pieces apart from what follows.
proof fn lemma_body_key_split(u: Seq<char>, y: Seq<char>)
    requires
        leads_component(u),
    ensures
        body_key(u + y) == body_key(u) + body_key(y),
    decreases u.len(),
{
    if u.len() == 0 {
        assert(u + y =~= y);
        assert(body_key(u) + body_key(y) =~= body_key(y));
    } else {
        lemma_first_slash_below(u);
        lemma_first_slash_prefix(u, y);
        let k = first_slash(u) as int;
        let r = u.skip(k + 1);
        assert((u + y).take(k) =~= u.take(k));
        assert((u + y).skip(k + 1) =~= r + y);
        if r.len() > 0 {
            assert(r.last() == u.last());
        }
        lemma_body_key_split(r, y);
        assert(body_key(u + y) =~= body_key(u) + body_key(y));
    }
}

/// The key of a name followed by nothing or by a separator and more.
proof fn lemma_body_key_of_name(a: Seq<char>, s: Seq<char>)
    requires
        is_name(a),
        ends_component(s),
    ensures
        body_key(a + s) == piece_key(a) + (if s.len() == 0 { Seq::empty() } else { body_key(s.drop_first()) }),
        piece_key(a) == seq![4u64] + text_units(a) + seq![0u64],
{
    let v = a + s;
    lemma_first_slash(v, 0, a.len() as int);
    assert(v.skip(0) =~= v);
    assert(v.take(a.len() as int) =~= a);
    if s.len() > 0 {
        assert(v.skip(a.len() as int + 1) =~= s.drop_first());
    } else {
        assert(v =~= a);
    }
}

/// The key of a path that continues a head with a name: the head's key (none
/// for an empty head), the name's key, then the keys of what follows.
proof fn lemma_path_key_of_name(x: Seq<char>, a: Seq<char>, s: Seq<char>)
    requires
        leads_component(x),
        is_name(a),
        ends_component(s),
    ensures
        path_key(x + a + s) == (if x.len() == 0 { Seq::empty() } else { path_key(x) }) + piece_key(a) + (
        if s.len() == 0 { Seq::empty() } else { body_key(s.drop_first()) }),
{
    let y = a + s;
    let rest: Seq<u64> = if s.len() == 0 { Seq::empty() } else { body_key(s.drop_first()) };
    lemma_body_key_of_name(a, s);
    assert(x + a + s =~= x + y);
    if x.len() == 0 {
        assert(x + y =~= y);
        assert(y[0] == a[0]);
        assert(!starts_at_cur_dir(y)) by {
            if a.len() == 1 && a[0] == '.' {
                assert(a =~= seq!['.']);
            }
            if a.len() > 1 {
                assert(y[1] == a[1]);
            } else if y.len() > 1 {
                assert(y[1] == s[0]);
            }
        }
        assert(path_key(x + a + s) =~= Seq::<u64>::empty() + piece_key(a) + rest);
    } else {
        let v = x + y;
        assert(v[0] == x[0]);
        if x.len() > 1 {
            assert(v[1] == x[1]);
        }
        if has_root(x) || starts_at_cur_dir(x) {
            let u = x.drop_first();
            assert(v.drop_first() =~= u + y);
            if u.len() > 0 {
                assert(u.last() == x.last());
            }
            lemma_body_key_split(u, y);
        } else {
            lemma_body_key_split(x, y);
        }
        assert(path_key(x + a + s) =~= path_key(x) + piece_key(a) + rest);
    }
}

/// Keys that agree up to a name and then go on with names in character order
/// are in that order, and not the other way round.
proof fn lemma_name_keys_ordered(h: Seq<u64>, a: Seq<char>, b: Seq<char>, ra: Seq<u64>, rb: Seq<u64>)
    requires
        text_before(a, b),
    ensures
        lex_le(h + (seq![4u64] + text_units(a) + seq![0u64]) + ra, h + (seq![4u64] + text_units(b) + seq![0u64]) + rb),
        !lex_le(h + (seq![4u64] + text_units(b) + seq![0u64]) + rb, h + (seq![4u64] + text_units(a) + seq![0u64]) + ra),
{
    let i = choose|i: int|
        0 <= i <= a.len() && i <= b.len() && #[trigger] a.take(i) == b.take(i) && (
        (i == a.len() && i < b.len()) || (i < a.len() && i < b.len() && (a[i] as u32) < (b[i] as u32)));
    let sa = h + (seq![4u64] + text_units(a) + seq![0u64]) + ra;
    let sb = h + (seq![4u64] + text_units(b) + seq![0u64]) + rb;
    let m = h.len() as int;
    let n = m + 1 + i;
    assert forall|k: int| 0 <= k < n implies sa[k] == sb[k] by {
        if k > m {
            let j = k - m - 1;
            assert(a.take(i)[j] == b.take(i)[j]);
            assert(sa[k] == text_units(a)[j]);
            assert(sb[k] == text_units(b)[j]);
        }
    }
    assert forall|k: int| 0 <= k < n implies sb[k] == sa[k] by {}
    lemma_lex_skip(sa, sb, n);
    lemma_lex_skip(sb, sa, n);
    assert(sb[n] == text_units(b)[i]);
    if i < a.len() {
        assert(sa[n] == text_units(a)[i]);
    } else {
        assert(sa[n] == 0);
    }
    assert(sa.skip(n)[0] == sa[n]);
    assert(sb.skip(n)[0] == sb[n]);
}

/// Two paths that share a head and then go on with different names sort as
/// those names do in character order.
pub proof fn lemma_path_keys_by_name(x: Seq<char>, a: Seq<char>, s: Seq<char>, b: Seq<char>, t: Seq<char>)
    requires
        leads_component(x),
        is_name(a),
        is_name(b),
        text_before(a, b),
        ends_component(s),
        ends_component(t),
    ensures
        lex_le(path_key(x + a + s), path_key(x + b + t)),
        !lex_le(path_key(x + b + t), path_key(x + a + s)),
{
    lemma_path_key_of_name(x, a, s);
    lemma_path_key_of_name(x, b, t);
    let h: Seq<u64> = if x.len() == 0 { Seq::empty() } else { path_key(x) };
    let ra: Seq<u64> = if s.len() == 0 { Seq::empty() } else { body_key(s.drop_first()) };
    let rb: Seq<u64> = if t.len() == 0 { Seq::empty() } else { body_key(t.drop_first()) };
    lemma_name_keys_ordered(h, a, b, ra, rb);
}

/// The key of the piece `v[i..j]`, appended to `key`.
fn push_piece_key(key: &mut Vec<u64>, v: &Vec<char>, i: usize, j: usize)
    requires
        i <= j <= v@.len(),
    ensures
        final(key)@ == old(key)@ + piece_key(v@.subrange(i as int, j as int)),
{
    let ghost piece = v@.subrange(i as int, j as int);
    if j == i || (j - i == 1 && v[i] == '.') {
        if j > i {
            assert(piece =~= seq!['.']);
        }
        assert(is_skipped_piece(piece));
        assert(final(key)@ =~= old(key)@ + piece_key(piece));
        return;
    }
    if j - i == 2 && v[i] == '.' && v[i + 1] == '.' {
        assert(piece =~= seq!['.', '.']);
        key.push(3);
        key.push(0);
        assert(final(key)@ =~= old(key)@ + piece_key(piece));
        return;
    }
    assert(!is_skipped_piece(piece)) by {
        assert(piece.len() == j - i);
        if piece == seq!['.'] {
            assert(seq!['.'][0] == '.');
            assert(piece[0] == v@[i as int]);
        }
    }
    assert(piece != seq!['.', '.']) by {
        if piece == seq!['.', '.'] {
            assert(piece[0] == v@[i as int]);
            assert(piece[1] == v@[i + 1]);
        }
    }
    key.push(4);
    let mut t: usize = i;
    while t < j
        invariant
            i <= t <= j <= v@.len(),
            piece == v@.subrange(i as int, j as int),
            key@ == old(key)@ + seq![4u64] + text_units(v@.subrange(i as int, t as int)),
        decreases j - t,
    {
        let c = v[t];
        let cu: u64 = (c as u32) as u64;
        key.push(cu + 1);
        t = t + 1;
        assert(key@ =~= old(key)@ + seq![4u64] + text_units(v@.subrange(i as int, t as int)));
    }
    key.push(0);
    assert(final(key)@ =~= old(key)@ + piece_key(piece));
}

/// The key of the path and the bounds of its last piece that is a component.
fn parse_path(v: &Vec<char>) -> (r: (Vec<u64>, Option<(usize, usize)>))
    ensures
        r.0@ == path_key(v@),
        match r.1 {
            Some((a, b)) => a <= b <= v@.len() && last_piece(path_body(v@)) == Some(
                v@.subrange(a as int, b as int),
            ),
            None => last_piece(path_body(v@)) is None,
        },
{
    let n = v.len();
    let mut key: Vec<u64> = Vec::new();
    let mut start: usize = 0;
    if n > 0 && v[0] == '/' {
        key.push(1);
        key.push(0);
        start = 1;
    } else if n > 0 && v[0] == '.' && (n == 1 || v[1] == '/') {
        key.push(2);
        key.push(0);
        start = 1;
    }
    let ghost body = v@.skip(start as int);
    assert(body == path_body(v@)) by {
        if start == 0 {
            assert(v@.skip(0) =~= v@);
        } else {
            assert(v@.skip(1) =~= v@.drop_first());
        }
    }
    let ghost head = key@;
    assert(head + body_key(body) == path_key(v@));
    let mut last: Option<(usize, usize)> = None;
    let mut i: usize = start;
    while i < n
        invariant
            n == v@.len(),
            start <= i <= n,
            body == v@.skip(start as int),
            key@ + body_key(v@.skip(i as int)) == head + body_key(body),
            match last {
                Some((a, b)) => a <= b <= n,
                None => true,
            },
            (if last_piece(v@.skip(i as int)) is Some {
                last_piece(v@.skip(i as int))
            } else {
                match last {
                    Some((a, b)) => Some(v@.subrange(a as int, b as int)),
                    None => None,
                }
            }) == last_piece(body),
        decreases n - i,
    {
        let mut j: usize = i;
        while j < n && v[j] != '/'
            invariant
                i <= j <= n,
                n == v@.len(),
                forall|t: int| i <= t < j ==> v@[t] != '/',
            decreases n - j,
        {
            j = j + 1;
        }
        let ghost rest = v@.skip(i as int);
        proof {
            lemma_first_slash(v@, i as int, j as int);
            assert(rest.take(j - i) =~= v@.subrange(i as int, j as int));
            if j < n {
                assert(rest.skip(j - i + 1) =~= v@.skip(j + 1));
            } else {
                assert(rest =~= v@.subrange(i as int, j as int));
            }
        }
        let ghost prev_key = key@;
        push_piece_key(&mut key, v, i, j);
        let named = !(j == i || (j - i == 1 && v[i] == '.'));
        proof {
            let piece = v@.subrange(i as int, j as int);
            assert(named == !is_skipped_piece(piece)) by {
                if piece == seq!['.'] {
                    assert(piece[0] == v@[i as int]);
                }
                if j == i + 1 && v@[i as int] == '.' {
                    assert(piece =~= seq!['.']);
                }
            }
        }
        if named {
            last = Some((i, j));
        }
        if j < n {
            i = j + 1;
            assert(key@ + body_key(v@.skip(i as int)) =~= prev_key + body_key(rest));
        } else {
            i = n;
            assert(v@.skip(i as int) =~= Seq::<char>::empty());
            assert(key@ + body_key(v@.skip(i as int)) =~= prev_key + body_key(rest));
        }
    }
    assert(v@.skip(i as int) =~= Seq::<char>::empty());
    assert(key@ =~= path_key(v@));
    (key, last)
}

/// The characters `v[a..b]` as a string.
pub fn string_of(v: &Vec<char>, a: usize, b: usize) -> (s: String)
    requires
        a <= b <= v@.len(),
    ensures
        s@ == v@.subrange(a as int, b as int),
{
    let mut s = String::new();
    let mut t: usize = a;
    while t < b
        invariant
            a <= t <= b <= v@.len(),
            s@ == v@.subrange(a as int, t as int),
        decreases b - t,
    {
        push_char(&mut s, v[t]);
        t = t + 1;
        assert(s@ =~= v@.subrange(a as int, t as int));
    }
    s
}

/// The sort key of `path` (see `path_key`).
pub fn path_sort_key(path: &str) -> (k: Lex)
    ensures
        k.units@ == path_key(path@),
{
    let v = chars_of(path);
    let (units, _) = parse_path(&v);
    Lex { units }
}

/// The file name of `path`: its last component when that is a name, else
/// the empty string.
pub fn file_name_of(path: &str) -> (name: String)
    ensures
        name@ == path_file_name(path@),
{
    let v = chars_of(path);
    let (_, last) = parse_path(&v);
    match last {
        Some((a, b)) => {
            if b - a == 2 && v[a] == '.' && v[a + 1] == '.' {
                assert(v@.subrange(a as int, b as int) =~= seq!['.', '.']);
                String::new()
            } else {
                let s = string_of(&v, a, b);
                proof {
                    if s@ == seq!['.', '.'] {
                        assert(s@[0] == v@.subrange(a as int, b as int)[0]);
                        assert(s@[1] == v@.subrange(a as int, b as int)[1]);
                        assert(s@.len() == 2);
                    }
                }
                s
            }
        },
        None => String::new(),
    }
}

} // verus!
