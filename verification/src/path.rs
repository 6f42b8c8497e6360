//! Unix paths as byte strings, with the component rules of the standard
//! library: repeated separators and inner `.` components do not count.

use vstd::prelude::*;
use vstd::utf8::*;

use crate::views;

verus! {

/// A path: the bytes that the kernel takes for it.
#[derive(Debug)]
pub struct FsPath {
    pub bytes: Vec<u8>,
}

impl View for FsPath {
    type V = Seq<u8>;

    open spec fn view(&self) -> Seq<u8> {
        self.bytes@
    }
}

/// The separator of two components.
pub const SLASH: u8 = 47;

pub const DOT: u8 = 46;

/// How a path begins: at the root, with a leading `.`, or with a name.
#[derive(Clone, Copy, Debug, PartialEq, Eq, Structural)]
pub enum Lead {
    Root,
    Current,
    Relative,
}

pub open spec fn lead(p: Seq<u8>) -> Lead {
    if p.len() > 0 && p[0] == SLASH {
        Lead::Root
    } else if p.len() > 0 && p[0] == DOT && (p.len() == 1 || p[1] == SLASH) {
        Lead::Current
    } else {
        Lead::Relative
    }
}

/// The length of what stands before the names: the root or a leading `.`.
pub open spec fn lead_len(p: Seq<u8>) -> int {
    if lead(p) == Lead::Relative {
        0
    } else {
        1
    }
}

/// `p` without the separators and `.` components that it begins with.
pub open spec fn trim_front(p: Seq<u8>) -> Seq<u8>
    decreases p.len(),
{
    if p.len() > 0 && p[0] == SLASH {
        trim_front(p.skip(1))
    } else if p.len() > 0 && p[0] == DOT && (p.len() == 1 || p[1] == SLASH) {
        trim_front(p.skip(1))
    } else {
        p
    }
}

/// How many bytes stand before the first separator.
pub open spec fn name_len(p: Seq<u8>) -> nat
    decreases p.len(),
{
    if p.len() == 0 || p[0] == SLASH {
        0
    } else {
        1 + name_len(p.skip(1))
    }
}

pub proof fn lemma_trim_front(p: Seq<u8>)
    ensures
        trim_front(p).len() <= p.len(),
        trim_front(p) == p.skip(p.len() - trim_front(p).len()),
        trim_front(p).len() > 0 ==> trim_front(p)[0] != SLASH && name_len(trim_front(p)) > 0,
    decreases p.len(),
{
    if p.len() > 0 && (p[0] == SLASH || (p[0] == DOT && (p.len() == 1 || p[1] == SLASH))) {
        lemma_trim_front(p.skip(1));
        let t = trim_front(p);
        assert(p.skip(1).skip(p.len() - 1 - t.len()) =~= p.skip(p.len() - t.len()));
    } else {
        assert(p.skip(0) =~= p);
    }
}

pub proof fn lemma_name_len(p: Seq<u8>)
    ensures
        name_len(p) <= p.len(),
        forall|i: int| 0 <= i < name_len(p) ==> #[trigger] p[i] != SLASH,
        name_len(p) < p.len() ==> p[name_len(p) as int] == SLASH,
    decreases p.len(),
{
    if p.len() > 0 && p[0] != SLASH {
        lemma_name_len(p.skip(1));
        let rest = p.skip(1);
        assert forall|i: int| 0 <= i < name_len(p) implies #[trigger] p[i] != SLASH by {
            if i > 0 {
                assert(rest[i - 1] == p[i]);
            }
        }
    }
}

/// The names of a path, in order, from what follows its lead.
pub open spec fn names(p: Seq<u8>) -> Seq<Seq<u8>>
    decreases p.len(),
{
    let t = trim_front(p);
    if t.len() == 0 {
        Seq::empty()
    } else {
        proof {
            lemma_trim_front(p);
            lemma_name_len(t);
        }
        seq![t.take(name_len(t) as int)] + names(t.skip(name_len(t) as int))
    }
}

/// The components of a path. Two paths are the same path exactly when they
/// have the same lead and the same names.
pub open spec fn components(p: Seq<u8>) -> (Lead, Seq<Seq<u8>>) {
    (lead(p), names(p.skip(lead_len(p))))
}

pub open spec fn same_path(a: Seq<u8>, b: Seq<u8>) -> bool {
    components(a) == components(b)
}

/// The place behind the last separator.
pub open spec fn last_name_start(p: Seq<u8>) -> int
    decreases p.len(),
{
    if p.len() == 0 || p.last() == SLASH {
        p.len() as int
    } else {
        last_name_start(p.drop_last())
    }
}

pub proof fn lemma_last_name_start(p: Seq<u8>)
    ensures
        0 <= last_name_start(p) <= p.len(),
        last_name_start(p) > 0 ==> p[last_name_start(p) - 1] == SLASH,
    decreases p.len(),
{
    if p.len() > 0 && p.last() != SLASH {
        lemma_last_name_start(p.drop_last());
    }
}

/// The last piece of the body of a path, behind its last separator.
pub open spec fn last_piece(p: Seq<u8>) -> Seq<u8> {
    let body = p.skip(lead_len(p));
    body.skip(last_name_start(body))
}

/// `p` without the separators and `.` components that it ends with, the
/// lead kept.
pub open spec fn trim_back(p: Seq<u8>) -> Seq<u8>
    decreases p.len(),
{
    let body = p.skip(lead_len(p));
    let piece = last_piece(p);
    if body.len() == 0 || !(piece.len() == 0 || piece == seq![DOT]) {
        p
    } else {
        proof {
            lemma_last_name_start(body);
        }
        let cut = if last_name_start(body) > 0 {
            last_name_start(body) - 1
        } else {
            0
        };
        trim_back(p.take(lead_len(p) + cut))
    }
}

/// The path of `name` below `base`; an absolute `name` stands for itself.
pub open spec fn joined(base: Seq<u8>, name: Seq<u8>) -> Seq<u8> {
    if name.len() > 0 && name[0] == SLASH {
        name
    } else if base.len() > 0 && base.last() != SLASH {
        base.push(SLASH) + name
    } else {
        base + name
    }
}

/// What follows the first `n` names of a path's body.
pub open spec fn after_names(p: Seq<u8>, n: nat) -> Seq<u8>
    decreases n,
{
    if n == 0 {
        p
    } else {
        let t = trim_front(p);
        after_names(t.skip(name_len(t) as int), (n - 1) as nat)
    }
}

/// Whether the components of `base` begin those of `p`.
pub open spec fn is_below(p: Seq<u8>, base: Seq<u8>) -> bool {
    let (p_lead, p_names) = components(p);
    let (b_lead, b_names) = components(base);
    if b_lead == Lead::Relative && b_names.len() == 0 {
        true
    } else {
        p_lead == b_lead && b_names.len() <= p_names.len() && p_names.take(b_names.len() as int)
            == b_names
    }
}

/// `p` relative to `base`: what is left of `p` behind the components of
/// `base`.
pub open spec fn relative_to(p: Seq<u8>, base: Seq<u8>) -> Seq<u8> {
    let (b_lead, b_names) = components(base);
    if b_lead == Lead::Relative && b_names.len() == 0 {
        trim_back(p)
    } else {
        trim_back(trim_front(after_names(p.skip(lead_len(p)), b_names.len())))
    }
}

/// The path without its last component, where it has one.
pub open spec fn parent_of(p: Seq<u8>) -> Option<Seq<u8>> {
    let t = trim_back(p);
    let body = t.skip(lead_len(t));
    if body.len() == 0 {
        if lead(t) == Lead::Current {
            Some(Seq::empty())
        } else {
            None
        }
    } else {
        let cut = if last_name_start(body) > 0 {
            last_name_start(body) - 1
        } else {
            0
        };
        Some(trim_back(t.take(lead_len(t) + cut)))
    }
}

/// The last name of a path, unless that is `..`.
pub open spec fn file_name_of(p: Seq<u8>) -> Option<Seq<u8>> {
    let t = trim_back(p);
    if t.skip(lead_len(t)).len() == 0 || last_piece(t) == seq![DOT, DOT] {
        None
    } else {
        Some(last_piece(t))
    }
}

/// The text of a byte string, with each malformed part replaced.
pub uninterp spec fn lossy_text(bytes: Seq<u8>) -> Seq<char>;

/// `std::string::String::from_utf8_lossy`. Well-formed UTF-8 comes back
/// unchanged; what stands in place of malformed parts is left to the name
/// `lossy_text`.
#[verifier::external_body]
pub(crate) fn decode_lossy(bytes: &Vec<u8>) -> (text: String)
    ensures
        text@ == lossy_text(bytes@),
        valid_utf8(bytes@) ==> text@ == decode_utf8(bytes@),
{
    String::from_utf8_lossy(bytes).into_owned()
}

/// `src[from..to]` as a vector.
pub fn byte_range(src: &[u8], from: usize, to: usize) -> (out: Vec<u8>)
    requires
        from <= to <= src@.len(),
    ensures
        out@ == src@.subrange(from as int, to as int),
{
    let mut out: Vec<u8> = Vec::new();
    let mut i: usize = from;
    while i < to
        invariant
            from <= i <= to <= src@.len(),
            out@ == src@.subrange(from as int, i as int),
        decreases to - i,
    {
        out.push(src[i]);
        i = i + 1;
        assert(out@ =~= src@.subrange(from as int, i as int));
    }
    out
}

/// Whether two byte strings are equal.
pub fn same_bytes(a: &[u8], b: &[u8]) -> (same: bool)
    ensures
        same == (a@ == b@),
{
    if a.len() != b.len() {
        return false;
    }
    let mut i: usize = 0;
    while i < a.len()
        invariant
            i <= a@.len(),
            a@.len() == b@.len(),
            forall|k: int| 0 <= k < i ==> a@[k] == b@[k],
        decreases a@.len() - i,
    {
        if a[i] != b[i] {
            return false;
        }
        i = i + 1;
    }
    assert(a@ =~= b@);
    true
}

fn lead_of(p: &[u8]) -> (l: Lead)
    ensures
        l == lead(p@),
{
    if p.len() > 0 && p[0] == SLASH {
        Lead::Root
    } else if p.len() > 0 && p[0] == DOT && (p.len() == 1 || p[1] == SLASH) {
        Lead::Current
    } else {
        Lead::Relative
    }
}

fn lead_width(p: &[u8]) -> (n: usize)
    ensures
        n == lead_len(p@),
        n <= p@.len(),
{
    if lead_of(p) == Lead::Relative {
        0
    } else {
        1
    }
}

fn skip_front(p: &[u8], from: usize) -> (at: usize)
    requires
        from <= p@.len(),
    ensures
        from <= at <= p@.len(),
        p@.skip(at as int) == trim_front(p@.skip(from as int)),
{
    let mut at: usize = from;
    let len: usize = p.len();
    while at < len && (p[at] == SLASH || (p[at] == DOT && (at + 1 == len || p[at + 1] == SLASH)))
        invariant
            from <= at <= len,
            len == p@.len(),
            trim_front(p@.skip(from as int)) == trim_front(p@.skip(at as int)),
        decreases len - at,
    {
        assert(p@.skip(at as int).skip(1) =~= p@.skip(at + 1));
        at = at + 1;
    }
    at
}

fn name_end(p: &[u8], from: usize) -> (end: usize)
    requires
        from <= p@.len(),
    ensures
        from <= end <= p@.len(),
        end - from == name_len(p@.skip(from as int)),
{
    let mut end: usize = from;
    while end < p.len() && p[end] != SLASH
        invariant
            from <= end <= p@.len(),
            name_len(p@.skip(from as int)) == (end - from) + name_len(p@.skip(end as int)),
        decreases p@.len() - end,
    {
        assert(p@.skip(end as int).skip(1) =~= p@.skip(end + 1));
        end = end + 1;
    }
    end
}

/// The names behind `from`, each as a vector.
fn name_list(p: &[u8], from: usize) -> (list: Vec<Vec<u8>>)
    requires
        from <= p@.len(),
    ensures
        list@.len() == names(p@.skip(from as int)).len(),
        forall|i: int| 0 <= i < list@.len() ==> #[trigger] list@[i]@ == names(p@.skip(from as int))[i],
{
    let mut list: Vec<Vec<u8>> = Vec::new();
    let mut at: usize = skip_front(p, from);
    let ghost all = names(p@.skip(from as int));
    proof {
        lemma_trim_front(p@.skip(from as int));
        lemma_trim_idempotent(p@.skip(from as int));
    }
    while at < p.len()
        invariant
            from <= at <= p@.len(),
            all == names(p@.skip(from as int)),
            trim_front(p@.skip(at as int)) == p@.skip(at as int),
            list@.len() + names(p@.skip(at as int)).len() == all.len(),
            forall|i: int| 0 <= i < list@.len() ==> #[trigger] list@[i]@ == all[i],
            forall|i: int|
                0 <= i < names(p@.skip(at as int)).len() ==> #[trigger] names(p@.skip(at as int))[i]
                    == all[list@.len() + i],
        decreases p@.len() - at,
    {
        let ghost t = p@.skip(at as int);
        let ghost before = names(t);
        let end: usize = name_end(p, at);
        proof {
            lemma_trim_front(t);
        }
        let name: Vec<u8> = byte_range(p, at, end);
        assert(name@ =~= t.take(end - at));
        assert(before[0] == name@);
        list.push(name);
        assert(t.skip(end - at) =~= p@.skip(end as int));
        let ghost rest = names(p@.skip(end as int));
        assert(before =~= seq![name@] + rest);
        at = skip_front(p, end);
        proof {
            lemma_trim_front(p@.skip(end as int));
            lemma_trim_idempotent(p@.skip(end as int));
            assert(names(p@.skip(at as int)) =~= rest);
            assert forall|i: int|
                0 <= i < names(p@.skip(at as int)).len() implies #[trigger] names(
                p@.skip(at as int),
            )[i] == all[list@.len() + i] by {
                assert(before[i + 1] == rest[i]);
            }
        }
    }
    list
}

proof fn lemma_trim_idempotent(p: Seq<u8>)
    ensures
        trim_front(trim_front(p)) == trim_front(p),
        names(trim_front(p)) == names(p),
    decreases p.len(),
{
    if p.len() > 0 && (p[0] == SLASH || (p[0] == DOT && (p.len() == 1 || p[1] == SLASH))) {
        lemma_trim_idempotent(p.skip(1));
    }
}

/// The end of `p[..to]` without trailing separators and `.` components.
fn back_end(p: &[u8], to: usize) -> (end: usize)
    requires
        to <= p@.len(),
    ensures
        end <= to,
        p@.take(end as int) == trim_back(p@.take(to as int)),
    decreases to,
{
    let cut: Vec<u8> = byte_range(p, 0, to);
    let ghost q = p@.take(to as int);
    assert(cut@ =~= q);
    let start: usize = lead_width(&cut);
    if start == to {
        return to;
    }
    let name: usize = name_start(p, start, to);
    let ghost body = q.skip(lead_len(q));
    proof {
        assert(p@.subrange(start as int, to as int) =~= body);
        lemma_last_name_start(body);
        assert(last_piece(q) =~= p@.subrange(name as int, to as int));
    }
    let blank: bool = name == to;
    let dot: bool = to - name == 1 && p[name] == DOT;
    assert(dot ==> last_piece(q) =~= seq![DOT]);
    if !blank && !dot {
        assert(last_piece(q) != seq![DOT]) by {
            if last_piece(q) == seq![DOT] {
                assert(last_piece(q).len() == 1);
                assert(last_piece(q)[0] == p@[name as int]);
            }
        }
        return to;
    }
    let next: usize = if name > start {
        name - 1
    } else {
        start
    };
    assert(q.take(next as int) =~= p@.take(next as int));
    back_end(p, next)
}

/// Where the last name of `p[from..to]` begins.
fn name_start(p: &[u8], from: usize, to: usize) -> (at: usize)
    requires
        from <= to <= p@.len(),
    ensures
        from <= at <= to,
        at - from == last_name_start(p@.subrange(from as int, to as int)),
{
    let mut at: usize = to;
    while at > from && p[at - 1] != SLASH
        invariant
            from <= at <= to <= p@.len(),
            last_name_start(p@.subrange(from as int, to as int)) == last_name_start(
                p@.subrange(from as int, at as int),
            ),
        decreases at,
    {
        assert(p@.subrange(from as int, at as int).drop_last() =~= p@.subrange(
            from as int,
            at - 1,
        ));
        at = at - 1;
    }
    assert(at > from ==> p@.subrange(from as int, at as int).last() == p@[at - 1]);
    at
}

impl Clone for FsPath {
    fn clone(&self) -> (copy: Self)
        ensures
            copy@ == self@,
    {
        let bytes: Vec<u8> = byte_range(&self.bytes, 0, self.bytes.len());
        assert(bytes@ =~= self@);
        FsPath { bytes }
    }
}

impl FsPath {
    /// The path that a text writes.
    pub fn from_text(text: &str) -> (path: FsPath)
        ensures
            path@ == encode_utf8(text@),
    {
        let raw: &[u8] = text.as_bytes();
        let bytes: Vec<u8> = byte_range(raw, 0, raw.len());
        assert(bytes@ =~= raw@);
        FsPath { bytes }
    }

    /// The root directory.
    pub fn root() -> (path: FsPath)
        ensures
            path@ == seq![SLASH],
    {
        let mut bytes: Vec<u8> = Vec::new();
        bytes.push(SLASH);
        FsPath { bytes }
    }

    /// Whether two paths have the same components.
    pub fn same(&self, other: &FsPath) -> (same: bool)
        ensures
            same == same_path(self@, other@),
    {
        if lead_of(&self.bytes) != lead_of(&other.bytes) {
            return false;
        }
        let a: Vec<Vec<u8>> = name_list(&self.bytes, lead_width(&self.bytes));
        let b: Vec<Vec<u8>> = name_list(&other.bytes, lead_width(&other.bytes));
        let ghost a_names = components(self@).1;
        let ghost b_names = components(other@).1;
        if a.len() != b.len() {
            return false;
        }
        let mut i: usize = 0;
        while i < a.len()
            invariant
                i <= a@.len(),
                a@.len() == b@.len() == a_names.len() == b_names.len(),
                forall|k: int| 0 <= k < a@.len() ==> #[trigger] a@[k]@ == a_names[k],
                forall|k: int| 0 <= k < b@.len() ==> #[trigger] b@[k]@ == b_names[k],
                forall|k: int| 0 <= k < i ==> a_names[k] == b_names[k],
                a_names == components(self@).1,
                b_names == components(other@).1,
            decreases a@.len() - i,
        {
            assert(a@[i as int]@ == a_names[i as int]);
            assert(b@[i as int]@ == b_names[i as int]);
            if !same_bytes(&a[i], &b[i]) {
                return false;
            }
            i = i + 1;
        }
        assert(a_names =~= b_names);
        true
    }

    /// The path of `name` below this one.
    pub fn join(&self, name: &FsPath) -> (path: FsPath)
        ensures
            path@ == joined(self@, name@),
    {
        if name.bytes.len() > 0 && name.bytes[0] == SLASH {
            return name.clone();
        }
        let mut bytes: Vec<u8> = byte_range(&self.bytes, 0, self.bytes.len());
        assert(bytes@ =~= self@);
        if bytes.len() > 0 && bytes[bytes.len() - 1] != SLASH {
            bytes.push(SLASH);
        }
        let ghost head = bytes@;
        let mut i: usize = 0;
        while i < name.bytes.len()
            invariant
                i <= name@.len(),
                bytes@ == head + name@.take(i as int),
            decreases name@.len() - i,
        {
            bytes.push(name.bytes[i]);
            i = i + 1;
            assert(name@.take(i as int) =~= name@.take(i - 1).push(name@[i - 1]));
            assert(bytes@ =~= head + name@.take(i as int));
        }
        assert(name@.take(i as int) =~= name@);
        FsPath { bytes }
    }

    /// This path relative to `base`, where it lies below it.
    pub fn strip_prefix(&self, base: &FsPath) -> (rest: Option<FsPath>)
        ensures
            match rest {
                Some(r) => is_below(self@, base@) && r@ == relative_to(self@, base@),
                None => !is_below(self@, base@),
            },
    {
        let b_lead: Lead = lead_of(&base.bytes);
        let b: Vec<Vec<u8>> = name_list(&base.bytes, lead_width(&base.bytes));
        let ghost b_names = components(base@).1;
        let ghost p_names = components(self@).1;
        let start: usize = lead_width(&self.bytes);
        let len: usize = self.bytes.len();
        if b_lead == Lead::Relative && b.len() == 0 {
            assert(self@.take(len as int) =~= self@);
            let end: usize = back_end(&self.bytes, len);
            let bytes: Vec<u8> = byte_range(&self.bytes, 0, end);
            assert(bytes@ =~= self@.take(end as int));
            return Some(FsPath { bytes });
        }
        if lead_of(&self.bytes) != b_lead {
            return None;
        }
        let p: Vec<Vec<u8>> = name_list(&self.bytes, start);
        if b.len() > p.len() {
            return None;
        }
        let mut at: usize = start;
        let mut i: usize = 0;
        let ghost body = self@.skip(start as int);
        while i < b.len()
            invariant
                i <= b@.len(),
                b@.len() == b_names.len(),
                b@.len() <= p@.len(),
                p@.len() == p_names.len(),
                start <= at <= self@.len(),
                body == self@.skip(start as int),
                b_names == components(base@).1,
                p_names == components(self@).1,
                p_names == names(body),
                !(lead(base@) == Lead::Relative && b_names.len() == 0),
                forall|k: int| 0 <= k < b@.len() ==> #[trigger] b@[k]@ == b_names[k],
                forall|k: int| 0 <= k < p@.len() ==> #[trigger] p@[k]@ == p_names[k],
                forall|k: int| 0 <= k < i ==> p_names[k] == b_names[k],
                self@.skip(at as int) == after_names(body, i as nat),
                names(self@.skip(at as int)) == p_names.skip(i as int),
            decreases b@.len() - i,
        {
            assert(b@[i as int]@ == b_names[i as int]);
            assert(p@[i as int]@ == p_names[i as int]);
            if !same_bytes(&p[i], &b[i]) {
                assert(p_names.take(b_names.len() as int)[i as int] != b_names[i as int]);
                return None;
            }
            let ghost rest = self@.skip(at as int);
            let from: usize = skip_front(&self.bytes, at);
            let next: usize = name_end(&self.bytes, from);
            proof {
                lemma_after_names_step(body, i as nat);
                lemma_trim_front(rest);
                let t = trim_front(rest);
                assert(names(rest).len() > 0);
                assert(t.skip(next - from) =~= self@.skip(next as int));
                assert(names(rest) =~= seq![t.take(name_len(t) as int)] + names(
                    self@.skip(next as int),
                ));
                assert(names(self@.skip(next as int)) =~= names(rest).skip(1));
                assert(p_names.skip(i as int).skip(1) =~= p_names.skip(i + 1));
            }
            at = next;
            i = i + 1;
        }
        assert(p_names.take(b_names.len() as int) =~= b_names);
        let from: usize = skip_front(&self.bytes, at);
        let tail: Vec<u8> = byte_range(&self.bytes, from, len);
        assert(tail@ =~= self@.skip(from as int));
        assert(tail@.take(tail@.len() as int) =~= tail@);
        let end: usize = back_end(&tail, tail.len());
        let bytes: Vec<u8> = byte_range(&tail, 0, end);
        assert(bytes@ =~= tail@.take(end as int));
        Some(FsPath { bytes })
    }

    /// The path without its last component, where it has one.
    pub fn parent(&self) -> (parent: Option<FsPath>)
        ensures
            views::opt(parent) == parent_of(self@),
    {
        let len: usize = self.bytes.len();
        assert(self@.take(len as int) =~= self@);
        let end: usize = back_end(&self.bytes, len);
        let t: Vec<u8> = byte_range(&self.bytes, 0, end);
        let ghost tv = trim_back(self@);
        assert(t@ =~= tv);
        let start: usize = lead_width(&t);
        if start == t.len() {
            if lead_of(&t) == Lead::Current {
                let empty: Vec<u8> = Vec::new();
                assert(empty@ =~= Seq::<u8>::empty());
                return Some(FsPath { bytes: empty });
            }
            return None;
        }
        let name: usize = name_start(&t, start, t.len());
        assert(t@.subrange(start as int, t@.len() as int) =~= tv.skip(lead_len(tv)));
        let cut: usize = if name > start {
            name - 1
        } else {
            start
        };
        let parent_end: usize = back_end(&t, cut);
        let bytes: Vec<u8> = byte_range(&t, 0, parent_end);
        assert(bytes@ =~= t@.take(parent_end as int));
        Some(FsPath { bytes })
    }

    /// The last name of the path, unless that is `..`.
    pub fn file_name(&self) -> (name: Option<Vec<u8>>)
        ensures
            match name {
                Some(n) => file_name_of(self@) == Some(n@),
                None => file_name_of(self@) is None,
            },
    {
        let len: usize = self.bytes.len();
        assert(self@.take(len as int) =~= self@);
        let end: usize = back_end(&self.bytes, len);
        let t: Vec<u8> = byte_range(&self.bytes, 0, end);
        let ghost tv = trim_back(self@);
        assert(t@ =~= tv);
        let start: usize = lead_width(&t);
        if start == t.len() {
            return None;
        }
        let at: usize = name_start(&t, start, t.len());
        assert(t@.subrange(start as int, t@.len() as int) =~= tv.skip(lead_len(tv)));
        let name: Vec<u8> = byte_range(&t, at, t.len());
        assert(name@ =~= last_piece(tv));
        if name.len() == 2 && name[0] == DOT && name[1] == DOT {
            assert(name@ =~= seq![DOT, DOT]);
            return None;
        }
        assert(name@ != seq![DOT, DOT]) by {
            if name@ == seq![DOT, DOT] {
                assert(name@.len() == 2 && name@[0] == DOT && name@[1] == DOT);
            }
        }
        Some(name)
    }

    /// The path as text, for messages.
    pub fn display(&self) -> (text: String)
        ensures
            text@ == lossy_text(self@),
            valid_utf8(self@) ==> text@ == decode_utf8(self@),
    {
        decode_lossy(&self.bytes)
    }
}

proof fn lemma_after_names_step(p: Seq<u8>, n: nat)
    ensures
        after_names(p, n + 1) == ({
            let t = trim_front(after_names(p, n));
            t.skip(name_len(t) as int)
        }),
    decreases n,
{
    reveal_with_fuel(after_names, 2);
    if n > 0 {
        let t = trim_front(p);
        lemma_after_names_step(t.skip(name_len(t) as int), (n - 1) as nat);
    }
}

// ---------------------------------------------------------------------
// Order
// ---------------------------------------------------------------------

/// Whether bytes come no later than others, compared one by one.
pub open spec fn bytes_le(a: Seq<u8>, b: Seq<u8>) -> bool
    decreases a.len(),
{
    if a.len() == 0 {
        true
    } else if b.len() == 0 {
        false
    } else if a[0] != b[0] {
        a[0] < b[0]
    } else {
        bytes_le(a.skip(1), b.skip(1))
    }
}

/// Where a name stands among the parts of paths: a name for the directory
/// above comes before all others.
pub open spec fn name_rank(name: Seq<u8>) -> u8 {
    if name == seq![DOT, DOT] {
        3
    } else {
        4
    }
}

/// The parts by which paths are compared, each with its rank: the root, a
/// leading `.`, and the names.
pub open spec fn parts(p: Seq<u8>) -> Seq<(u8, Seq<u8>)> {
    let (first, list) = components(p);
    let rest = Seq::new(list.len(), |i: int| (name_rank(list[i]), list[i]));
    match first {
        Lead::Root => seq![(1u8, Seq::<u8>::empty())] + rest,
        Lead::Current => seq![(2u8, Seq::<u8>::empty())] + rest,
        Lead::Relative => rest,
    }
}

/// Whether lists of parts come no later than others.
pub open spec fn parts_le(a: Seq<(u8, Seq<u8>)>, b: Seq<(u8, Seq<u8>)>) -> bool
    decreases a.len(),
{
    if a.len() == 0 {
        true
    } else if b.len() == 0 {
        false
    } else if a[0] == b[0] {
        parts_le(a.skip(1), b.skip(1))
    } else if a[0].0 != b[0].0 {
        a[0].0 < b[0].0
    } else {
        bytes_le(a[0].1, b[0].1)
    }
}

/// Whether a path comes no later than another.
pub open spec fn path_le(a: Seq<u8>, b: Seq<u8>) -> bool {
    parts_le(parts(a), parts(b))
}

proof fn lemma_bytes_total(a: Seq<u8>, b: Seq<u8>)
    ensures
        bytes_le(a, b) || bytes_le(b, a),
        bytes_le(a, b) && bytes_le(b, a) ==> a == b,
    decreases a.len(),
{
    if a.len() > 0 && b.len() > 0 && a[0] == b[0] {
        lemma_bytes_total(a.skip(1), b.skip(1));
        if a.skip(1) == b.skip(1) {
            assert(a =~= seq![a[0]] + a.skip(1));
            assert(b =~= seq![b[0]] + b.skip(1));
        }
    } else if a.len() == 0 && b.len() == 0 {
        assert(a =~= b);
    }
}

proof fn lemma_bytes_transitive(a: Seq<u8>, b: Seq<u8>, c: Seq<u8>)
    requires
        bytes_le(a, b),
        bytes_le(b, c),
    ensures
        bytes_le(a, c),
    decreases a.len(),
{
    if a.len() > 0 && b.len() > 0 && c.len() > 0 && a[0] == b[0] && b[0] == c[0] {
        lemma_bytes_transitive(a.skip(1), b.skip(1), c.skip(1));
    }
}

proof fn lemma_parts_total(a: Seq<(u8, Seq<u8>)>, b: Seq<(u8, Seq<u8>)>)
    ensures
        parts_le(a, b) || parts_le(b, a),
    decreases a.len(),
{
    if a.len() > 0 && b.len() > 0 {
        lemma_bytes_total(a[0].1, b[0].1);
        if a[0] == b[0] {
            lemma_parts_total(a.skip(1), b.skip(1));
        }
    }
}

proof fn lemma_parts_transitive(
    a: Seq<(u8, Seq<u8>)>,
    b: Seq<(u8, Seq<u8>)>,
    c: Seq<(u8, Seq<u8>)>,
)
    requires
        parts_le(a, b),
        parts_le(b, c),
    ensures
        parts_le(a, c),
    decreases a.len(),
{
    if a.len() > 0 && b.len() > 0 && c.len() > 0 {
        if a[0] == b[0] && b[0] == c[0] {
            lemma_parts_transitive(a.skip(1), b.skip(1), c.skip(1));
        } else if a[0].0 == b[0].0 && b[0].0 == c[0].0 {
            lemma_bytes_total(a[0].1, b[0].1);
            lemma_bytes_total(b[0].1, c[0].1);
            if a[0] != b[0] && b[0] != c[0] {
                lemma_bytes_transitive(a[0].1, b[0].1, c[0].1);
            }
        }
    }
}

/// Of two paths one comes no later than the other.
pub proof fn lemma_path_total(a: Seq<u8>, b: Seq<u8>)
    ensures
        path_le(a, b) || path_le(b, a),
{
    lemma_parts_total(parts(a), parts(b));
}

/// A path that comes no later than a second comes no later than what the
/// second comes no later than.
pub proof fn lemma_path_transitive(a: Seq<u8>, b: Seq<u8>, c: Seq<u8>)
    requires
        path_le(a, b),
        path_le(b, c),
    ensures
        path_le(a, c),
{
    lemma_parts_transitive(parts(a), parts(b), parts(c));
}

fn bytes_at_most(a: &Vec<u8>, b: &Vec<u8>) -> (yes: bool)
    ensures
        yes == bytes_le(a@, b@),
{
    let mut i: usize = 0;
    assert(a@.skip(0) =~= a@);
    assert(b@.skip(0) =~= b@);
    while i < a.len()
        invariant
            i <= a@.len(),
            i <= b@.len(),
            bytes_le(a@, b@) == bytes_le(a@.skip(i as int), b@.skip(i as int)),
        decreases a@.len() - i,
    {
        if i == b.len() {
            return false;
        }
        if a[i] != b[i] {
            return a[i] < b[i];
        }
        assert(a@.skip(i as int).skip(1) =~= a@.skip(i + 1));
        assert(b@.skip(i as int).skip(1) =~= b@.skip(i + 1));
        i = i + 1;
    }
    true
}

/// The parts of a path, each with its rank.
fn part_list(p: &Vec<u8>) -> (list: (Vec<u8>, Vec<Vec<u8>>))
    ensures
        list.0@.len() == parts(p@).len(),
        list.1@.len() == parts(p@).len(),
        forall|i: int| 0 <= i < list.0@.len() ==> #[trigger] list.0@[i] == parts(p@)[i].0,
        forall|i: int| 0 <= i < list.1@.len() ==> #[trigger] list.1@[i]@ == parts(p@)[i].1,
{
    let mut ranks: Vec<u8> = Vec::new();
    let mut texts: Vec<Vec<u8>> = Vec::new();
    let first: Lead = lead_of(p);
    match first {
        Lead::Root => {
            ranks.push(1);
            texts.push(Vec::new());
        },
        Lead::Current => {
            ranks.push(2);
            texts.push(Vec::new());
        },
        Lead::Relative => {},
    }
    let ghost head = ranks@.len();
    let names: Vec<Vec<u8>> = name_list(p, lead_width(p));
    let ghost all = components(p@).1;
    proof {
        if head == 1 {
            assert(texts@[0]@ =~= Seq::empty());
        }
    }
    let mut i: usize = 0;
    while i < names.len()
        invariant
            i <= names@.len(),
            names@.len() == all.len(),
            head <= 1,
            (head == 0) == (lead(p@) == Lead::Relative),
            all == components(p@).1,
            forall|k: int| 0 <= k < names@.len() ==> #[trigger] names@[k]@ == all[k],
            ranks@.len() == head + i,
            texts@.len() == head + i,
            forall|k: int| 0 <= k < ranks@.len() ==> #[trigger] ranks@[k] == parts(p@)[k].0,
            forall|k: int| 0 <= k < texts@.len() ==> #[trigger] texts@[k]@ == parts(p@)[k].1,
        decreases names@.len() - i,
    {
        let name: Vec<u8> = byte_range(&names[i], 0, names[i].len());
        assert(name@ =~= names@[i as int]@);
        assert(name@ == all[i as int]);
        let up: bool = name.len() == 2 && name[0] == DOT && name[1] == DOT;
        assert(up == (name@ == seq![DOT, DOT])) by {
            if up {
                assert(name@ =~= seq![DOT, DOT]);
            }
        }
        assert(parts(p@)[head + i] == (name_rank(all[i as int]), all[i as int]));
        ranks.push(
            if up {
                3
            } else {
                4
            },
        );
        texts.push(name);
        i = i + 1;
    }
    (ranks, texts)
}

impl FsPath {
    /// Tells whether this path comes no later than another.
    pub fn at_most(&self, other: &FsPath) -> (yes: bool)
        ensures
            yes == path_le(self@, other@),
    {
        let (a_ranks, a_texts) = part_list(&self.bytes);
        let (b_ranks, b_texts) = part_list(&other.bytes);
        let ghost a = parts(self@);
        let ghost b = parts(other@);
        let mut i: usize = 0;
        assert(a.skip(0) =~= a);
        assert(b.skip(0) =~= b);
        while i < a_ranks.len()
            invariant
                i <= a.len(),
                i <= b.len(),
                a == parts(self@),
                b == parts(other@),
                a_ranks@.len() == a.len(),
                a_texts@.len() == a.len(),
                b_ranks@.len() == b.len(),
                b_texts@.len() == b.len(),
                forall|k: int| 0 <= k < a.len() ==> #[trigger] a_ranks@[k] == a[k].0,
                forall|k: int| 0 <= k < a.len() ==> #[trigger] a_texts@[k]@ == a[k].1,
                forall|k: int| 0 <= k < b.len() ==> #[trigger] b_ranks@[k] == b[k].0,
                forall|k: int| 0 <= k < b.len() ==> #[trigger] b_texts@[k]@ == b[k].1,
                parts_le(a, b) == parts_le(a.skip(i as int), b.skip(i as int)),
            decreases a.len() - i,
        {
            if i == b_ranks.len() {
                return false;
            }
            assert(a.skip(i as int)[0] == a[i as int]);
            assert(b.skip(i as int)[0] == b[i as int]);
            assert(a_texts@[i as int]@ == a[i as int].1);
            assert(b_texts@[i as int]@ == b[i as int].1);
            if a_ranks[i] != b_ranks[i] {
                return a_ranks[i] < b_ranks[i];
            }
            if !same_bytes(&a_texts[i], &b_texts[i]) {
                return bytes_at_most(&a_texts[i], &b_texts[i]);
            }
            assert(a.skip(i as int).skip(1) =~= a.skip(i + 1));
            assert(b.skip(i as int).skip(1) =~= b.skip(i + 1));
            i = i + 1;
        }
        true
    }
}

} // verus!
