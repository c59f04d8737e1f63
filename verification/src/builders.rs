//! Constructors and collection builders: structural equality over frames,
//! map insertion that keeps keys unique, and set insertion that keeps
//! members unique under structural equality.

use vstd::prelude::*;
use crate::frame::Arrays;
use crate::frame::Double;
use crate::frame::FrameV;
use crate::frame::RespFrame;
use crate::frame::RespMap;
use crate::frame::RespSet;
use crate::frame::SimpleString;
use crate::frame::frame_view;
use crate::frame::frames_view;
use crate::frame::entries_view;
use crate::frame::lemma_frames_view;
use crate::frame::lemma_entries_view;

verus! {

/// Byte-vector equality.
pub fn bytes_eq(a: &Vec<u8>, b: &Vec<u8>) -> (r: bool)
    ensures
        r == (a@ == b@),
{
    if a.len() != b.len() {
        return false;
    }
    let mut i: usize = 0;
    while i < a.len()
        invariant
            0 <= i <= a@.len(),
            a@.len() == b@.len(),
            forall|j: int| 0 <= j < i ==> a@[j] == b@[j],
        decreases a@.len() - i,
    {
        if a[i] != b[i] {
            return false;
        }
        i = i + 1;
    }
    proof {
        assert(a@ =~= b@);
    }
    true
}

/// Structural equality of frames: same variant, equal payloads, element by
/// element. A double is compared by its token, so a not-a-number double
/// equals another not-a-number double here; that is the membership rule
/// this library's sets use.
pub fn frame_eq(a: &RespFrame, b: &RespFrame) -> (r: bool)
    ensures
        r == (a@ == b@),
    decreases *a,
{
    match (a, b) {
        (RespFrame::SimpleString(x), RespFrame::SimpleString(y)) => bytes_eq(&x.0, &y.0),
        (RespFrame::SimpleError(x), RespFrame::SimpleError(y)) => bytes_eq(&x.0, &y.0),
        (RespFrame::Integer(x), RespFrame::Integer(y)) => x == y,
        (RespFrame::Boolean(x), RespFrame::Boolean(y)) => x == y,
        (RespFrame::Double(x), RespFrame::Double(y)) => match (x, y) {
            (Double::Nan, Double::Nan) => true,
            (Double::PosInf, Double::PosInf) => true,
            (Double::NegInf, Double::NegInf) => true,
            (Double::Finite(t), Double::Finite(u)) => bytes_eq(t, u),
            _ => false,
        },
        (RespFrame::BigNumber(x), RespFrame::BigNumber(y)) => x == y,
        (RespFrame::NullBulkString(_), RespFrame::NullBulkString(_)) => true,
        (RespFrame::Nil(_), RespFrame::Nil(_)) => true,
        (RespFrame::ArrayNil(_), RespFrame::ArrayNil(_)) => true,
        (RespFrame::BulkString(x), RespFrame::BulkString(y)) => bytes_eq(&x.0, &y.0),
        (RespFrame::BulkErrors(x), RespFrame::BulkErrors(y)) => match (x, y) {
            (Option::None, Option::None) => true,
            (Option::Some(p), Option::Some(q)) => bytes_eq(p, q),
            _ => false,
        },
        (RespFrame::BulkResp(x), RespFrame::BulkResp(y)) => frames_eq(&x.0, &y.0),
        (RespFrame::RespSet(x), RespFrame::RespSet(y)) => frames_eq(&x.0, &y.0),
        (RespFrame::RespMap(x), RespFrame::RespMap(y)) => entries_eq(&x.0, &y.0),
        _ => {
            false
        },
    }
}

/// Element-by-element structural equality of frame vectors.
pub fn frames_eq(a: &Vec<RespFrame>, b: &Vec<RespFrame>) -> (r: bool)
    ensures
        r == (frames_view(a@) == frames_view(b@)),
    decreases a@,
{
    proof {
        lemma_frames_view(a@);
        lemma_frames_view(b@);
    }
    if a.len() != b.len() {
        return false;
    }
    let n = a.len();
    let mut i: usize = 0;
    while i < n
        invariant
            0 <= i <= n,
            n == a@.len() == b@.len(),
            frames_view(a@).len() == n,
            frames_view(b@).len() == n,
            forall|j: int| 0 <= j < n ==> frames_view(a@)[j] == frame_view(#[trigger] a@[j]),
            forall|j: int| 0 <= j < n ==> frames_view(b@)[j] == frame_view(#[trigger] b@[j]),
            forall|j: int| 0 <= j < i ==> frames_view(a@)[j] == frames_view(b@)[j],
        decreases n - i,
    {
        if !frame_eq(&a[i], &b[i]) {
            return false;
        }
        i = i + 1;
    }
    proof {
        assert(frames_view(a@) =~= frames_view(b@));
    }
    true
}

/// Entry-by-entry structural equality of map entry vectors.
pub fn entries_eq(
    a: &Vec<(SimpleString, RespFrame)>,
    b: &Vec<(SimpleString, RespFrame)>,
) -> (r: bool)
    ensures
        r == (entries_view(a@) == entries_view(b@)),
    decreases a@,
{
    proof {
        lemma_entries_view(a@);
        lemma_entries_view(b@);
    }
    if a.len() != b.len() {
        return false;
    }
    let n = a.len();
    let mut i: usize = 0;
    while i < n
        invariant
            0 <= i <= n,
            n == a@.len() == b@.len(),
            entries_view(a@).len() == n,
            entries_view(b@).len() == n,
            forall|j: int|
                0 <= j < n ==> entries_view(a@)[j] == ((#[trigger] a@[j]).0.0@, frame_view(
                    a@[j].1,
                )),
            forall|j: int|
                0 <= j < n ==> entries_view(b@)[j] == ((#[trigger] b@[j]).0.0@, frame_view(
                    b@[j].1,
                )),
            forall|j: int| 0 <= j < i ==> entries_view(a@)[j] == entries_view(b@)[j],
        decreases n - i,
    {
        if !bytes_eq(&a[i].0.0, &b[i].0.0) {
            return false;
        }
        if !frame_eq(&a[i].1, &b[i].1) {
            return false;
        }
        i = i + 1;
    }
    proof {
        assert(entries_view(a@) =~= entries_view(b@));
    }
    true
}

impl Arrays {
    /// Wraps an element vector as an array payload.
    pub fn new(elems: Vec<RespFrame>) -> (r: Arrays)
        ensures
            r@ == frames_view(elems@),
    {
        Arrays(elems)
    }
}

/// No two entries share a key.
pub open spec fn keys_unique(es: Seq<(Seq<u8>, FrameV)>) -> bool {
    forall|i: int, j: int| 0 <= i < j < es.len() ==> (#[trigger] es[i]).0 != (#[trigger] es[j]).0
}

/// Insertion into an entry sequence: the first entry under an equal key is
/// replaced in place, else the new entry is appended.
pub open spec fn map_set(es: Seq<(Seq<u8>, FrameV)>, k: Seq<u8>, v: FrameV) -> Seq<
    (Seq<u8>, FrameV),
>
    decreases es.len(),
{
    if es.len() == 0 {
        seq![(k, v)]
    } else if es[0].0 == k {
        seq![(k, v)] + es.drop_first()
    } else {
        seq![es[0]] + map_set(es.drop_first(), k, v)
    }
}

/// Insertion keeps keys unique.
pub proof fn lemma_map_set_unique(es: Seq<(Seq<u8>, FrameV)>, k: Seq<u8>, v: FrameV)
    requires
        keys_unique(es),
    ensures
        keys_unique(map_set(es, k, v)),
        forall|i: int|
            0 <= i < map_set(es, k, v).len() ==> ((#[trigger] map_set(es, k, v)[i]).0 == k
                <==> map_set(es, k, v)[i] == (k, v)),
    decreases es.len(),
{
    let r = map_set(es, k, v);
    if es.len() == 0 {
    } else if es[0].0 == k {
        assert(forall|i: int| 1 <= i < r.len() ==> r[i] == es[i]);
        assert forall|i: int, j: int| 0 <= i < j < r.len() implies (#[trigger] r[i]).0 != (
        #[trigger] r[j]).0 by {
            if i == 0 {
                assert(r[j] == es[j]);
                assert(es[0].0 != es[j].0);
            } else {
                assert(r[i] == es[i] && r[j] == es[j]);
            }
        }
        assert forall|i: int| 0 <= i < r.len() implies ((#[trigger] r[i]).0 == k <==> r[i] == (
            k,
            v,
        )) by {
            if i > 0 {
                assert(r[i] == es[i]);
                assert(es[i].0 != es[0].0);
            }
        }
    } else {
        let rest = es.drop_first();
        assert(forall|i: int| 0 <= i < rest.len() ==> rest[i] == es[i + 1]);
        assert forall|i: int, j: int| 0 <= i < j < rest.len() implies (#[trigger] rest[i]).0 != (
        #[trigger] rest[j]).0 by {
            assert(es[i + 1].0 != es[j + 1].0);
        }
        lemma_map_set_unique(rest, k, v);
        let sub = map_set(rest, k, v);
        assert(r == seq![es[0]] + sub);
        assert(forall|i: int| 1 <= i < r.len() ==> r[i] == sub[i - 1]);
        assert forall|i: int, j: int| 0 <= i < j < r.len() implies (#[trigger] r[i]).0 != (
        #[trigger] r[j]).0 by {
            if i == 0 {
                if sub[j - 1].0 == k {
                    assert(sub[j - 1] == (k, v));
                    assert(r[j].0 == k);
                    assert(es[0].0 != k);
                } else {
                    assert(exists|m: int| 0 <= m < rest.len() && rest[m] == sub[j - 1]
                        || sub[j - 1] == (k, v)) by {
                        lemma_map_set_members(rest, k, v, j - 1);
                    }
                    let m = choose|m: int| 0 <= m < rest.len() && rest[m] == sub[j - 1];
                    assert(es[0].0 != rest[m].0);
                }
            } else {
                assert(r[i] == sub[i - 1] && r[j] == sub[j - 1]);
            }
        }
        assert forall|i: int| 0 <= i < r.len() implies ((#[trigger] r[i]).0 == k <==> r[i] == (
            k,
            v,
        )) by {
            if i > 0 {
                assert(r[i] == sub[i - 1]);
            }
        }
    }
}

/// Every entry of an insertion result is the new entry or one of the old.
proof fn lemma_map_set_members(es: Seq<(Seq<u8>, FrameV)>, k: Seq<u8>, v: FrameV, i: int)
    requires
        0 <= i < map_set(es, k, v).len(),
    ensures
        map_set(es, k, v)[i] == (k, v) || exists|m: int|
            0 <= m < es.len() && es[m] == map_set(es, k, v)[i],
    decreases es.len(),
{
    let r = map_set(es, k, v);
    if es.len() == 0 {
    } else if es[0].0 == k {
        if i > 0 {
            assert(r[i] == es[i]);
        }
    } else {
        if i > 0 {
            lemma_map_set_members(es.drop_first(), k, v, i - 1);
            assert(r[i] == map_set(es.drop_first(), k, v)[i - 1]);
            if map_set(es.drop_first(), k, v)[i - 1] != (k, v) {
                let m = choose|m: int|
                    0 <= m < es.drop_first().len() && es.drop_first()[m] == map_set(
                        es.drop_first(),
                        k,
                        v,
                    )[i - 1];
                assert(es[m + 1] == r[i]);
            }
        }
    }
}

/// Stepping `map_set` past a run of entries whose keys differ from `k`.
proof fn lemma_map_set_skip(es: Seq<(Seq<u8>, FrameV)>, k: Seq<u8>, v: FrameV, i: int)
    requires
        0 <= i <= es.len(),
        forall|j: int| 0 <= j < i ==> (#[trigger] es[j]).0 != k,
    ensures
        map_set(es, k, v) == es.take(i) + map_set(es.skip(i), k, v),
    decreases i,
{
    if i == 0 {
        assert(es.take(0) =~= Seq::<(Seq<u8>, FrameV)>::empty());
        assert(es.skip(0) =~= es);
        assert(map_set(es, k, v) =~= es.take(0) + map_set(es.skip(0), k, v));
    } else {
        let rest = es.drop_first();
        assert(forall|j: int| 0 <= j < i - 1 ==> (#[trigger] rest[j]).0 == es[j + 1].0);
        lemma_map_set_skip(rest, k, v, i - 1);
        assert(rest.take(i - 1) =~= es.take(i).drop_first());
        assert(rest.skip(i - 1) =~= es.skip(i));
        assert(map_set(es, k, v) == seq![es[0]] + map_set(rest, k, v));
        assert(map_set(es, k, v) =~= es.take(i) + map_set(es.skip(i), k, v));
    }
}

impl RespMap {
    /// An empty map.
    pub fn new() -> (r: RespMap)
        ensures
            r@ == Seq::<(Seq<u8>, FrameV)>::empty(),
    {
        let m = RespMap(Vec::new());
        proof {
            assert(m@ =~= Seq::<(Seq<u8>, FrameV)>::empty());
        }
        m
    }

    /// The index of the first entry whose key equals `key`, if any.
    fn find_key(&self, key: &SimpleString) -> (r: Option<usize>)
        ensures
            match r {
                Option::Some(i) => i < self@.len() && (#[trigger] self@[i as int]).0 == key@
                    && forall|j: int| 0 <= j < i ==> (#[trigger] self@[j]).0 != key@,
                Option::None => forall|j: int|
                    0 <= j < self@.len() ==> (#[trigger] self@[j]).0 != key@,
            },
    {
        proof {
            lemma_entries_view(self.0@);
        }
        let n = self.0.len();
        let mut i: usize = 0;
        while i < n
            invariant
                0 <= i <= n == self.0@.len(),
                entries_view(self.0@).len() == n,
                forall|j: int|
                    0 <= j < n ==> entries_view(self.0@)[j] == (
                        (#[trigger] self.0@[j]).0.0@,
                        frame_view(self.0@[j].1),
                    ),
                forall|j: int| 0 <= j < i ==> (#[trigger] entries_view(self.0@)[j]).0 != key@,
            decreases n - i,
        {
            if bytes_eq(&self.0[i].0.0, &key.0) {
                return Option::Some(i);
            }
            i = i + 1;
        }
        Option::None
    }

    /// Inserts under `key`: the first entry with an equal key is replaced
    /// in place, else the entry is appended at the end, so unique keys
    /// stay unique and entry order is preserved.
    pub fn insert(&mut self, key: SimpleString, value: RespFrame)
        ensures
            final(self)@ == map_set(old(self)@, key@, frame_view(value)),
    {
        let ghost pre = entries_view(self.0@);
        let ghost kg = key;
        let ghost vg = value;
        proof {
            lemma_entries_view(self.0@);
        }
        match self.find_key(&key) {
            Option::Some(i) => {
                proof {
                    lemma_map_set_skip(pre, kg.0@, frame_view(vg), i as int);
                    assert(pre.skip(i as int)[0] == pre[i as int]);
                    assert(map_set(pre.skip(i as int), kg.0@, frame_view(vg)) == seq![
                        (kg.0@, frame_view(vg)),
                    ] + pre.skip(i as int).drop_first());
                }
                self.0[i] = (key, value);
                proof {
                    lemma_entries_view(self.0@);
                    let target = map_set(pre, kg.0@, frame_view(vg));
                    assert(target == pre.take(i as int) + (seq![(kg.0@, frame_view(vg))]
                        + pre.skip(i as int).drop_first()));
                    assert(target.len() == pre.len());
                    assert forall|j: int|
                        0 <= j < pre.len() implies entries_view(self.0@)[j] == target[j] by {
                        assert(entries_view(self.0@)[j] == (
                            self.0@[j].0.0@,
                            frame_view(self.0@[j].1),
                        ));
                        assert(pre[j] == (
                            old(self).0@[j].0.0@,
                            frame_view(old(self).0@[j].1),
                        ));
                        if j < i {
                            assert(self.0@[j] == old(self).0@[j]);
                            assert(target[j] == pre.take(i as int)[j]);
                        } else if j == i {
                            assert(entries_view(self.0@)[j] == (kg.0@, frame_view(vg)));
                        } else {
                            assert(self.0@[j] == old(self).0@[j]);
                            assert(target[j] == pre.skip(i as int).drop_first()[j - i - 1]);
                            assert(pre.skip(i as int).drop_first()[j - i - 1] == pre[j]);
                        }
                    }
                    assert(entries_view(self.0@) =~= target);
                }
            },
            Option::None => {
                proof {
                    assert forall|j: int| 0 <= j < pre.len() implies (#[trigger] pre[j]).0
                        != kg.0@ by {
                        assert(self@[j].0 != key@);
                    }
                    lemma_map_set_skip(pre, kg.0@, frame_view(vg), pre.len() as int);
                    assert(pre.skip(pre.len() as int) =~= Seq::<(Seq<u8>, FrameV)>::empty());
                    assert(pre.take(pre.len() as int) =~= pre);
                }
                self.0.push((key, value));
                proof {
                    crate::frame::lemma_entries_view_push(old(self).0@, kg, vg);
                    assert(entries_view(self.0@) =~= map_set(pre, kg.0@, frame_view(vg)));
                }
            },
        }
    }
}

/// Adding a member: the sequence is unchanged when an equal member is
/// already present, else the member is appended.
pub open spec fn set_add(es: Seq<FrameV>, f: FrameV) -> Seq<FrameV> {
    if es.contains(f) {
        es
    } else {
        es.push(f)
    }
}

/// No two members are structurally equal.
pub open spec fn members_unique(es: Seq<FrameV>) -> bool {
    forall|i: int, j: int| 0 <= i < j < es.len() ==> es[i] != es[j]
}

/// Adding a member keeps members unique.
pub proof fn lemma_set_add_unique(es: Seq<FrameV>, f: FrameV)
    requires
        members_unique(es),
    ensures
        members_unique(set_add(es, f)),
{
    if !es.contains(f) {
        let r = es.push(f);
        assert forall|i: int, j: int| 0 <= i < j < r.len() implies r[i] != r[j] by {
            if j == es.len() {
                assert(r[i] == es[i]);
                assert(!es.contains(f));
                assert(es[i] != f);
            } else {
                assert(r[i] == es[i] && r[j] == es[j]);
            }
        }
    }
}

impl RespSet {
    /// An empty set.
    pub fn new() -> (r: RespSet)
        ensures
            r@ == Seq::<FrameV>::empty(),
    {
        let s = RespSet(Vec::new());
        proof {
            assert(s@ =~= Seq::<FrameV>::empty());
        }
        s
    }

    /// Adds a member unless a structurally equal member is present, so
    /// distinct members stay distinct.
    pub fn insert(&mut self, member: RespFrame)
        ensures
            final(self)@ == set_add(old(self)@, frame_view(member)),
    {
        proof {
            lemma_frames_view(self.0@);
        }
        let n = self.0.len();
        let mut i: usize = 0;
        while i < n
            invariant
                0 <= i <= n == self.0@.len(),
                frames_view(self.0@).len() == n,
                forall|j: int|
                    0 <= j < n ==> frames_view(self.0@)[j] == frame_view(#[trigger] self.0@[j]),
                forall|j: int| 0 <= j < i ==> frames_view(self.0@)[j] != frame_view(member),
                self == old(self),
            decreases n - i,
        {
            if frame_eq(&self.0[i], &member) {
                proof {
                    assert(frames_view(self.0@).contains(frame_view(member))) by {
                        assert(frames_view(self.0@)[i as int] == frame_view(member));
                    }
                }
                return ;
            }
            i = i + 1;
        }
        proof {
            assert(!frames_view(self.0@).contains(frame_view(member))) by {
                if frames_view(self.0@).contains(frame_view(member)) {
                    let m = choose|m: int|
                        0 <= m < frames_view(self.0@).len() && frames_view(self.0@)[m]
                            == frame_view(member);
                    assert(frames_view(self.0@)[m] != frame_view(member));
                }
            }
        }
        let ghost fg = member;
        let ghost pre = frames_view(self.0@);
        self.0.push(member);
        proof {
            crate::frame::lemma_frames_view_push(old(self).0@, fg);
        }
    }
}

} // verus!
