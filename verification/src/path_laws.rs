//! What holds of every path: how its components follow from the paths that it
//! is made of.

use vstd::prelude::*;

use crate::path;
use crate::path::{Lead, DOT, SLASH};

verus! {

/// Whether the first byte of a body is passed over when its names are read.
spec fn is_filler(p: Seq<u8>) -> bool {
    p.len() > 0 && (p[0] == SLASH || (p[0] == DOT && (p.len() == 1 || p[1] == SLASH)))
}

proof fn lemma_filler_is_passed(p: Seq<u8>)
    requires
        is_filler(p),
    ensures
        path::names(p) == path::names(p.skip(1)),
{
    assert(path::trim_front(p) == path::trim_front(p.skip(1)));
}

proof fn lemma_first_name(p: Seq<u8>)
    requires
        p.len() > 0,
        !is_filler(p),
    ensures
        path::name_len(p) > 0,
        path::name_len(p) <= p.len(),
        path::names(p) == seq![p.take(path::name_len(p) as int)] + path::names(
            p.skip(path::name_len(p) as int),
        ),
{
    path::lemma_trim_front(p);
    path::lemma_name_len(p);
}

proof fn lemma_name_len_is(p: Seq<u8>, n: nat)
    requires
        n <= p.len(),
        forall|i: int| 0 <= i < n ==> #[trigger] p[i] != SLASH,
        n < p.len() ==> p[n as int] == SLASH,
    ensures
        path::name_len(p) == n,
{
    path::lemma_name_len(p);
    let m = path::name_len(p);
    if m < n {
        assert(p[m as int] != SLASH);
    }
    if n < m {
        assert(p[n as int] != SLASH);
    }
}

/// A separator parts the names before it from those behind it.
proof fn lemma_names_are_parted(a: Seq<u8>, b: Seq<u8>)
    ensures
        path::names(a.push(SLASH) + b) == path::names(a) + path::names(b),
    decreases a.len(),
{
    let whole = a.push(SLASH) + b;
    if a.len() == 0 {
        lemma_filler_is_passed(whole);
        assert(whole.skip(1) =~= b);
        assert(path::names(a) =~= Seq::empty());
        assert(path::names(a) + path::names(b) =~= path::names(b));
    } else if is_filler(a) {
        assert(is_filler(whole));
        lemma_filler_is_passed(a);
        lemma_filler_is_passed(whole);
        assert(whole.skip(1) =~= a.skip(1).push(SLASH) + b);
        lemma_names_are_parted(a.skip(1), b);
    } else {
        assert(!is_filler(whole));
        lemma_first_name(a);
        lemma_first_name(whole);
        path::lemma_name_len(a);
        let n = path::name_len(a);
        assert forall|i: int| 0 <= i < n implies #[trigger] whole[i] != SLASH by {
            assert(a[i] != SLASH);
        }
        lemma_name_len_is(whole, n);
        assert(whole.take(n as int) =~= a.take(n as int));
        assert(whole.skip(n as int) =~= a.skip(n as int).push(SLASH) + b);
        lemma_names_are_parted(a.skip(n as int), b);
        assert(path::names(whole) =~= path::names(a) + path::names(b));
    }
}

proof fn lemma_no_names()
    ensures
        path::names(Seq::<u8>::empty()) == Seq::<Seq<u8>>::empty(),
{
}

/// A separator at the end adds no name.
proof fn lemma_trailing_separator(a: Seq<u8>)
    ensures
        path::names(a.push(SLASH)) == path::names(a),
{
    lemma_names_are_parted(a, Seq::empty());
    assert(a.push(SLASH) + Seq::<u8>::empty() =~= a.push(SLASH));
    lemma_no_names();
    assert(path::names(a) + Seq::<Seq<u8>>::empty() =~= path::names(a));
}

/// Whether a string of bytes is one name: it has bytes, no separator, and is
/// not the name of a directory for itself.
pub open spec fn is_name(name: Seq<u8>) -> bool {
    &&& name.len() > 0
    &&& forall|i: int| 0 <= i < name.len() ==> #[trigger] name[i] != 47
    &&& name != seq![46u8]
}

proof fn lemma_one_name(name: Seq<u8>)
    requires
        is_name(name),
    ensures
        path::names(name) == seq![name],
{
    assert(name.len() == 1 && name[0] == DOT ==> name =~= seq![46u8]);
    assert(!is_filler(name));
    lemma_first_name(name);
    lemma_name_len_is(name, name.len());
    assert(name.take(name.len() as int) =~= name);
    assert(name.skip(name.len() as int) =~= Seq::empty());
    assert(path::names(name) =~= seq![name]);
}

/// A relative path that is joined to another adds its components to it: the
/// joined path begins as the first does, and has its names and then those of
/// the other. An absolute path stands for itself.
pub proof fn lemma_joining_adds_names(base: Seq<u8>, name: Seq<u8>)
    ensures
        name.len() > 0 && name[0] == 47 ==> path::joined(base, name) == name,
        base.len() == 0 ==> path::joined(base, name) == name,
        base.len() > 0 && (name.len() == 0 || name[0] != 47) ==> path::components(
            path::joined(base, name),
        ) == (path::components(base).0, path::components(base).1 + path::names(name)),
{
    if base.len() == 0 {
        assert(base + name =~= name);
    } else if name.len() == 0 || name[0] != SLASH {
        let whole = path::joined(base, name);
        let at = path::lead_len(base);
        let body = base.skip(at);
        if base.last() != SLASH {
            assert(whole == base.push(SLASH) + name);
            assert(path::lead(whole) == path::lead(base));
            assert(whole.skip(at) =~= body.push(SLASH) + name);
            lemma_names_are_parted(body, name);
        } else {
            assert(whole == base + name);
            if base.len() == 1 {
                assert(path::lead(whole) == Lead::Root);
                assert(body =~= Seq::empty());
                assert(whole.skip(1) =~= name);
                lemma_no_names();
                assert(path::names(body) + path::names(name) =~= path::names(name));
            } else {
                assert(path::lead(whole) == path::lead(base));
                let front = body.drop_last();
                assert(body =~= front.push(SLASH));
                assert(whole.skip(at) =~= front.push(SLASH) + name);
                lemma_names_are_parted(front, name);
                lemma_trailing_separator(front);
            }
        }
    }
}

/// One name that is joined to a path is its last component.
pub proof fn lemma_joined_name_is_last(base: Seq<u8>, name: Seq<u8>)
    requires
        base.len() > 0,
        is_name(name),
    ensures
        path::components(path::joined(base, name)).0 == path::components(base).0,
        path::components(path::joined(base, name)).1 == path::components(base).1.push(name),
        path::is_below(path::joined(base, name), base),
{
    assert(name[0] != SLASH);
    lemma_joining_adds_names(base, name);
    lemma_one_name(name);
    let before = path::components(base).1;
    assert(before + seq![name] =~= before.push(name));
    assert(before.push(name).take(before.len() as int) =~= before);
}

/// The last piece of a body: what stands before it, and that it has no
/// separator.
proof fn lemma_last_piece(body: Seq<u8>)
    ensures
        ({
            let at = path::last_name_start(body);
            &&& 0 <= at <= body.len()
            &&& at > 0 ==> body == body.take(at - 1).push(SLASH) + body.skip(at)
            &&& forall|i: int| at <= i < body.len() ==> #[trigger] body[i] != SLASH
        }),
    decreases body.len(),
{
    path::lemma_last_name_start(body);
    let at = path::last_name_start(body);
    if body.len() > 0 && body.last() != SLASH {
        lemma_last_piece(body.drop_last());
        assert forall|i: int| at <= i < body.len() implies #[trigger] body[i] != SLASH by {
            if i < body.len() - 1 {
                assert(body.drop_last()[i] != SLASH);
            }
        }
    }
    if at > 0 {
        assert(body =~= body.take(at - 1).push(SLASH) + body.skip(at));
    }
}

proof fn lemma_names_before_piece(body: Seq<u8>)
    ensures
        ({
            let at = path::last_name_start(body);
            let front = body.take(if at > 0 {
                at - 1
            } else {
                0
            });
            let piece = body.skip(at);
            &&& path::names(body) == path::names(front) + path::names(piece)
            &&& piece.len() == 0 || piece == seq![DOT] ==> path::names(piece).len() == 0
            &&& piece.len() > 0 && piece != seq![DOT] ==> path::names(piece) == seq![piece]
        }),
{
    lemma_last_piece(body);
    let at = path::last_name_start(body);
    let piece = body.skip(at);
    if at > 0 {
        lemma_names_are_parted(body.take(at - 1), piece);
    } else {
        assert(piece =~= body);
        assert(body.take(0) =~= Seq::empty());
        lemma_no_names();
        assert(Seq::<Seq<u8>>::empty() + path::names(piece) =~= path::names(piece));
    }
    if piece.len() > 0 && piece != seq![DOT] {
        assert forall|i: int| 0 <= i < piece.len() implies #[trigger] piece[i] != 47 by {
            assert(body[at + i] != SLASH);
        }
        lemma_one_name(piece);
    } else if piece == seq![DOT] {
        lemma_filler_is_passed(piece);
        assert(piece.skip(1) =~= Seq::empty());
    }
}

proof fn lemma_cut_keeps_lead(p: Seq<u8>, cut: int)
    requires
        0 <= cut <= p.skip(path::lead_len(p)).len(),
        cut == 0 || cut == p.skip(path::lead_len(p)).len() || p.skip(path::lead_len(p))[cut]
            == SLASH,
    ensures
        ({
            let front = p.take(path::lead_len(p) + cut);
            &&& path::lead(front) == path::lead(p)
            &&& front.skip(path::lead_len(front)) == p.skip(path::lead_len(p)).take(cut)
        }),
{
    let at = path::lead_len(p);
    let front = p.take(at + cut);
    if path::lead(p) == Lead::Relative && cut > 0 && front.len() == 1 && front[0] == DOT {
        assert(p.skip(0) =~= p);
        assert(p.len() == 1 || p[1] == SLASH);
    }
    assert(path::lead(front) == path::lead(p));
    assert(front.skip(at) =~= p.skip(at).take(cut));
}

/// Trimming the end of a path keeps its components.
proof fn lemma_trim_back_keeps(p: Seq<u8>)
    ensures
        path::components(path::trim_back(p)) == path::components(p),
        ({
            let t = path::trim_back(p);
            let body = t.skip(path::lead_len(t));
            body.len() == 0 || !(path::last_piece(t).len() == 0 || path::last_piece(t)
                == seq![DOT])
        }),
    decreases p.len(),
{
    let at = path::lead_len(p);
    let body = p.skip(at);
    let piece = path::last_piece(p);
    if !(body.len() == 0 || !(piece.len() == 0 || piece == seq![DOT])) {
        let start = path::last_name_start(body);
        lemma_last_piece(body);
        let cut = if start > 0 {
            start - 1
        } else {
            0
        };
        if start > 0 {
            assert(body[start - 1] == SLASH) by {
                path::lemma_last_name_start(body);
            }
        }
        lemma_cut_keeps_lead(p, cut);
        lemma_names_before_piece(body);
        let front = p.take(at + cut);
        assert(path::names(body) =~= path::names(body.take(cut)));
        lemma_trim_back_keeps(front);
    }
}

/// The directory of a path has all its components but the last.
pub proof fn lemma_parent_drops_last_name(p: Seq<u8>)
    requires
        path::components(p).1.len() > 0,
    ensures
        path::parent_of(p) is Some,
        path::components(path::parent_of(p)->0).0 == path::components(p).0,
        path::components(path::parent_of(p)->0).1 == path::components(p).1.drop_last(),
{
    let t = path::trim_back(p);
    lemma_trim_back_keeps(p);
    let at = path::lead_len(t);
    let body = t.skip(at);
    if body.len() == 0 {
        assert(body =~= Seq::empty());
        lemma_no_names();
    } else {
        let start = path::last_name_start(body);
        lemma_last_piece(body);
        lemma_names_before_piece(body);
        let cut = if start > 0 {
            start - 1
        } else {
            0
        };
        if start > 0 {
            path::lemma_last_name_start(body);
        }
        lemma_cut_keeps_lead(t, cut);
        let front = t.take(at + cut);
        lemma_trim_back_keeps(front);
        let piece = body.skip(start);
        assert(path::components(t).1 == path::names(body.take(cut)) + seq![piece]);
        assert(path::components(t).1.drop_last() =~= path::names(body.take(cut)));
    }
}

/// The name of a path is its last component, unless that leads upwards.
pub proof fn lemma_file_name_is_last(p: Seq<u8>)
    ensures
        path::components(p).1.len() == 0 ==> path::file_name_of(p) is None,
        path::components(p).1.len() > 0 ==> path::file_name_of(p) == (if path::components(
            p,
        ).1.last() == seq![46u8, 46u8] {
            None
        } else {
            Some(path::components(p).1.last())
        }),
{
    let t = path::trim_back(p);
    lemma_trim_back_keeps(p);
    let body = t.skip(path::lead_len(t));
    if body.len() == 0 {
        assert(body =~= Seq::empty());
        lemma_no_names();
    } else {
        lemma_names_before_piece(body);
        let piece = path::last_piece(t);
        assert(path::components(t).1.last() == piece);
    }
}

proof fn lemma_trim_front_keeps(p: Seq<u8>)
    ensures
        path::names(path::trim_front(p)) == path::names(p),
        !is_filler(path::trim_front(p)),
    decreases p.len(),
{
    if is_filler(p) {
        lemma_filler_is_passed(p);
        lemma_trim_front_keeps(p.skip(1));
    }
}

proof fn lemma_names_after(p: Seq<u8>, n: nat)
    requires
        n <= path::names(p).len(),
    ensures
        path::names(path::after_names(p, n)) == path::names(p).skip(n as int),
    decreases n,
{
    if n == 0 {
        assert(path::names(p).skip(0) =~= path::names(p));
    } else {
        let t = path::trim_front(p);
        lemma_trim_front_keeps(p);
        if t.len() == 0 {
            assert(t =~= Seq::empty());
            lemma_no_names();
        } else {
            lemma_first_name(t);
            let rest = t.skip(path::name_len(t) as int);
            lemma_names_after(rest, (n - 1) as nat);
            assert(path::names(p).skip(n as int) =~= path::names(rest).skip(n - 1));
        }
    }
}

/// A path relative to one above it has the names that stand behind those of
/// the other.
pub proof fn lemma_relative_path_has_the_rest(p: Seq<u8>, base: Seq<u8>)
    requires
        path::is_below(p, base),
        base.len() > 0,
    ensures
        path::components(path::relative_to(p, base)).0 == Lead::Relative,
        path::components(path::relative_to(p, base)).1 == path::components(p).1.skip(
            path::components(base).1.len() as int,
        ),
{
    let (b_lead, b_names) = path::components(base);
    if b_lead == Lead::Relative && b_names.len() == 0 {
        // A path of bytes that begins with a name has one.
        assert(base.skip(0) =~= base);
        assert(!is_filler(base));
        lemma_first_name(base);
    } else {
        let body = p.skip(path::lead_len(p));
        lemma_names_after(body, b_names.len());
        let after = path::after_names(body, b_names.len());
        lemma_trim_front_keeps(after);
        let t = path::trim_front(after);
        lemma_trim_back_keeps(t);
        assert(path::lead(t) == Lead::Relative);
        assert(t.skip(0) =~= t);
    }
}

/// A path below another is found again: joined to the other, what it is
/// relative to it gives the same path.
pub proof fn lemma_relative_path_leads_back(p: Seq<u8>, base: Seq<u8>)
    requires
        path::is_below(p, base),
        base.len() > 0,
    ensures
        path::same_path(path::joined(base, path::relative_to(p, base)), p),
{
    lemma_relative_path_has_the_rest(p, base);
    let rest = path::relative_to(p, base);
    assert(path::lead_len(rest) == 0);
    assert(rest.skip(0) =~= rest);
    lemma_joining_adds_names(base, rest);
    let before = path::components(base).1;
    let all = path::components(p).1;
    if path::components(base).0 == Lead::Relative && before.len() == 0 {
        assert(base.skip(0) =~= base);
        assert(!is_filler(base));
        lemma_first_name(base);
    }
    assert(before + all.skip(before.len() as int) =~= all);
}

} // verus!
