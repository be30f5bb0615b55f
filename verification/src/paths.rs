//! When two spellings name the same path.

use vstd::prelude::*;
use vstd::slice::slice_subrange;

use crate::text;

verus! {

/// The components of a path among its pieces between slashes: empty pieces and current
/// directory dots do not count, except for a dot that a relative path starts with.
pub open spec fn kept(pieces: Seq<Seq<char>>, leading: bool) -> Seq<Seq<char>>
    decreases pieces.len(),
{
    if pieces.len() == 0 {
        Seq::empty()
    } else {
        let rest = kept(pieces.skip(1), false);
        if pieces[0].len() == 0 || (pieces[0] == seq!['.'] && !leading) {
            rest
        } else {
            seq![pieces[0]] + rest
        }
    }
}

/// The components of a path.
pub open spec fn components(path: Seq<char>) -> Seq<Seq<char>> {
    kept(text::split(path, '/'), true)
}

/// Whether a path starts at the root.
pub open spec fn rooted(path: Seq<char>) -> bool {
    path.len() > 0 && path[0] == '/'
}

/// Whether two spellings are equal as paths: both rooted or both relative, and the same
/// components. Repeated and trailing slashes and inner dots make no difference.
pub open spec fn equivalent(a: Seq<char>, b: Seq<char>) -> bool {
    rooted(a) == rooted(b) && components(a) == components(b)
}

/// Texts held as vectors of characters.
spec fn held(v: Seq<Vec<char>>) -> Seq<Seq<char>> {
    v.map_values(|c: Vec<char>| c@)
}

/// A copy of `s`.
fn copied(s: &[char]) -> (v: Vec<char>)
    ensures
        v@ == s@,
{
    let mut v: Vec<char> = Vec::new();
    let mut i: usize = 0;
    while i < s.len()
        invariant
            i <= s@.len(),
            v@ == s@.take(i as int),
        decreases s@.len() - i,
    {
        v.push(s[i]);
        i = i + 1;
    }
    v
}

/// The components of a path.
fn split_path(path: &[char]) -> (v: Vec<Vec<char>>)
    ensures
        held(v@) == components(path@),
{
    let mut v: Vec<Vec<char>> = Vec::new();
    let mut from: usize = 0;
    let mut leading: bool = true;
    assert(path@.skip(0) == path@);
    assert(held(v@) == Seq::<Seq<char>>::empty());
    loop
        invariant
            from <= path@.len(),
            components(path@) == held(v@) + kept(text::split(path@.skip(from as int), '/'), leading),
        decreases path@.len() - from,
    {
        let rest = slice_subrange(path, from, path.len());
        assert(rest@ == path@.skip(from as int));
        let ghost pieces = text::split(rest@, '/');
        let n: usize = text::find(rest, '/');
        let piece = slice_subrange(rest, 0, n);
        assert(piece@ == rest@.take(n as int));
        assert(n == rest@.len() ==> piece@ == rest@);
        assert(pieces[0] == piece@);
        let ghost before = v@;
        let dot: bool = piece.len() == 1 && piece[0] == '.';
        assert(dot == (piece@ =~= seq!['.']));
        if piece.len() > 0 && (leading || !dot) {
            v.push(copied(piece));
            assert(held(v@) == held(before).push(piece@));
        }
        if n == rest.len() {
            assert(pieces.skip(1) == Seq::<Seq<char>>::empty());
            assert(kept(pieces.skip(1), false) == Seq::<Seq<char>>::empty());
            assert(held(v@) == held(before) + kept(pieces, leading));
            return v;
        }
        assert(pieces.skip(1) == text::split(rest@.skip(n + 1), '/'));
        assert(rest@.skip(n + 1) == path@.skip(from + n + 1));
        assert(held(before) + kept(pieces, leading) == held(v@) + kept(pieces.skip(1), false));
        from = from + n + 1;
        leading = false;
    }
}

/// Whether two spellings are equal as paths.
pub fn same_path(a: &str, b: &str) -> (r: bool)
    ensures
        r == equivalent(a@, b@),
{
    let x = text::characters(a);
    let y = text::characters(b);
    let x_rooted: bool = x.len() > 0 && x[0] == '/';
    let y_rooted: bool = y.len() > 0 && y[0] == '/';
    let p = split_path(x.as_slice());
    let q = split_path(y.as_slice());
    assert(held(p@).len() == p@.len());
    assert(held(q@).len() == q@.len());
    if x_rooted != y_rooted || p.len() != q.len() {
        return false;
    }
    let mut i: usize = 0;
    while i < p.len()
        invariant
            p@.len() == q@.len(),
            i <= p@.len(),
            held(p@) == components(a@),
            held(q@) == components(b@),
            forall|j: int| 0 <= j < i ==> held(p@)[j] == held(q@)[j],
        decreases p@.len() - i,
    {
        assert(held(p@)[i as int] == p@[i as int]@);
        assert(held(q@)[i as int] == q@[i as int]@);
        if !text::same(p[i].as_slice(), q[i].as_slice()) {
            return false;
        }
        i = i + 1;
    }
    assert(held(p@) == held(q@));
    true
}

proof fn lemma_kept_append(a: Seq<Seq<char>>, b: Seq<Seq<char>>, leading: bool)
    ensures
        kept(a + b, leading) == if a.len() == 0 {
            kept(b, leading)
        } else {
            kept(a, leading) + kept(b, false)
        },
    decreases a.len(),
{
    if a.len() == 0 {
        assert(a + b == b);
    } else {
        assert((a + b).skip(1) == a.skip(1) + b);
        lemma_kept_append(a.skip(1), b, false);
        if a.len() == 1 {
            assert(kept(a.skip(1), false) == Seq::<Seq<char>>::empty());
        }
        assert(kept(a + b, leading) == kept(a, leading) + kept(b, false));
    }
}

proof fn lemma_split_append(a: Seq<char>, b: Seq<char>)
    ensures
        text::split(a + seq!['/'] + b, '/') == text::split(a, '/') + text::split(b, '/'),
        text::split(a, '/').len() > 0,
    decreases a.len(),
{
    let n = text::position(a, '/');
    text::lemma_position(a, '/');
    if n == a.len() {
        assert(!a.contains('/'));
        text::law_split_undoes_joining(a, '/', b);
    } else {
        let head = a.take(n);
        let tail = a.skip(n + 1);
        lemma_split_append(tail, b);
        assert(!head.contains('/'));
        assert(a == head + seq!['/'] + tail);
        assert(a + seq!['/'] + b == head + seq!['/'] + (tail + seq!['/'] + b));
        text::law_split_undoes_joining(head, '/', tail);
        text::law_split_undoes_joining(head, '/', tail + seq!['/'] + b);
        assert(text::split(a + seq!['/'] + b, '/') == text::split(a, '/') + text::split(b, '/'));
    }
}

/// Repeated slashes, slashes at the end and dots between slashes make no difference to which
/// path is named, and a relative path never names the same as one from the root.
pub proof fn law_slack_makes_no_difference(a: Seq<char>, b: Seq<char>)
    ensures
        equivalent(a + seq!['/', '/'] + b, a + seq!['/'] + b),
        equivalent(a + seq!['/', '.', '/'] + b, a + seq!['/'] + b),
        a.len() > 0 ==> equivalent(a + seq!['/'], a),
        a.len() > 0 ==> equivalent(a + seq!['/', '.'], a),
        !equivalent(seq!['/'] + a, b) || (b.len() > 0 && b[0] == '/'),
{
    let none = Seq::<char>::empty();
    let dot = seq!['.'];
    assert(!none.contains('/'));
    assert(!dot.contains('/'));
    text::law_split_undoes_joining(none, '/', b);
    text::law_split_undoes_joining(dot, '/', b);
    assert(a + seq!['/', '/'] + b == a + seq!['/'] + (none + seq!['/'] + b));
    assert(a + seq!['/', '.', '/'] + b == a + seq!['/'] + (dot + seq!['/'] + b));
    assert(a + seq!['/'] == a + seq!['/'] + none);
    assert(a + seq!['/', '.'] == a + seq!['/'] + dot);
    let pieces = text::split(a, '/');
    lemma_split_append(a, none + seq!['/'] + b);
    lemma_split_append(a, dot + seq!['/'] + b);
    lemma_split_append(a, b);
    lemma_split_append(a, none);
    lemma_split_append(a, dot);
    lemma_kept_append(pieces, text::split(none + seq!['/'] + b, '/'), true);
    lemma_kept_append(pieces, text::split(dot + seq!['/'] + b, '/'), true);
    lemma_kept_append(pieces, text::split(b, '/'), true);
    lemma_kept_append(pieces, seq![none], true);
    lemma_kept_append(pieces, seq![dot], true);
    lemma_kept_append(seq![none], text::split(b, '/'), false);
    lemma_kept_append(seq![dot], text::split(b, '/'), false);
    assert(seq![none].skip(1) == Seq::<Seq<char>>::empty());
    assert(seq![dot].skip(1) == Seq::<Seq<char>>::empty());
    assert(kept(seq![none].skip(1), false) == Seq::<Seq<char>>::empty());
    assert(kept(seq![dot].skip(1), false) == Seq::<Seq<char>>::empty());
    assert(kept(seq![none], false) == Seq::<Seq<char>>::empty());
    assert(kept(seq![dot], false) == Seq::<Seq<char>>::empty());
    let kept_a = kept(pieces, true);
    assert(Seq::<Seq<char>>::empty() + kept(text::split(b, '/'), false) == kept(
        text::split(b, '/'),
        false,
    ));
    assert(kept_a + Seq::<Seq<char>>::empty() == kept_a);
}

/// Whether a name is one component of a path and no more.
pub open spec fn plain(name: Seq<char>) -> bool {
    name.len() > 0 && !name.contains('/') && name != seq!['.']
}

/// A name below a path is told apart from any other name below it, and from the path itself:
/// two paths that end in plain names are the same exactly if those names are, and what the
/// names stand below is.
pub proof fn law_names_are_told_apart(a: Seq<char>, x: Seq<char>, b: Seq<char>, y: Seq<char>)
    requires
        plain(x),
        plain(y),
    ensures
        equivalent(a + seq!['/'] + x, b + seq!['/'] + y) ==> x == y,
        equivalent(a + seq!['/'] + x, a + seq!['/'] + y) <==> x == y,
        a.len() > 0 && b.len() > 0 ==> (equivalent(a + seq!['/'] + x, b + seq!['/'] + y) <==> x == y
            && equivalent(a, b)),
        a.len() > 0 ==> !equivalent(a + seq!['/'] + x, a),
        equivalent(x, y) <==> x == y,
{
    let none = Seq::<char>::empty();
    text::law_split_undoes_joining(x, '/', none);
    text::law_split_undoes_joining(y, '/', none);
    lemma_split_append(a, x);
    lemma_split_append(b, y);
    lemma_split_append(a, y);
    lemma_kept_append(text::split(a, '/'), seq![x], true);
    lemma_kept_append(text::split(b, '/'), seq![y], true);
    lemma_kept_append(text::split(a, '/'), seq![y], true);
    lemma_split_append(b, none);
    assert(seq![x].skip(1) == Seq::<Seq<char>>::empty());
    assert(seq![y].skip(1) == Seq::<Seq<char>>::empty());
    assert(kept(Seq::<Seq<char>>::empty(), false) == Seq::<Seq<char>>::empty());
    assert(kept(seq![x], false) == seq![x]);
    assert(kept(seq![y], false) == seq![y]);
    assert(kept(seq![x], true) == seq![x]);
    assert(kept(seq![y], true) == seq![y]);
    let p = components(a + seq!['/'] + x);
    let q = components(b + seq!['/'] + y);
    let r = components(a + seq!['/'] + y);
    assert(p.last() == x && q.last() == y && r.last() == y);
    assert(components(x)[0] == x && components(y)[0] == y);
    if a.len() > 0 {
        assert(p.len() == components(a).len() + 1);
        if b.len() > 0 {
            assert(p.drop_last() == components(a) && q.drop_last() == components(b));
        }
    }
}

} // verus!
