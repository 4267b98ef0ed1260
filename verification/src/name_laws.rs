//! What holds of the name codec for every name and every buffer.

use crate::error::DnsError;
use crate::name::decode_spec;
use crate::name::dotted;
use crate::name::encode_spec;
use crate::name::first_dot;
use crate::name::grown;
use crate::name::label_run;
use crate::name::labels_fit;
use crate::name::labels_of;
use crate::name::pointer_target;
use crate::name::read_labels;
use crate::name::valid_name;
use crate::name::wire_form;
use crate::name::LabelWalk;
use crate::name::NameWalk;
use crate::name::DOT;
use crate::name::MAX_LABEL_LEN;
use crate::name::MAX_NAME_LEN;
use crate::name::POINTER_TAG;
use vstd::prelude::*;

verus! {

/// The length of a dotted name of `used` bytes once `labels` are added to
/// it one by one.
pub(crate) open spec fn grown_by(used: int, labels: Seq<Seq<u8>>) -> int
    decreases labels.len(),
{
    if labels.len() == 0 {
        used
    } else {
        grown_by(grown(used, labels[0].len() as int), labels.drop_first())
    }
}

/// What a walk yields once `labels` were read before it.
pub(crate) open spec fn prepend(labels: Seq<Seq<u8>>, rest: LabelWalk) -> LabelWalk {
    match rest {
        Ok((more, end)) => Ok((labels + more, end)),
        Err(e) => Err(e),
    }
}

/// The first dot lies within the name, or the name has none.
pub(crate) proof fn lemma_first_dot(name: Seq<u8>)
    ensures
        first_dot(name) <= name.len(),
        first_dot(name) < name.len() ==> name[first_dot(name) as int] == DOT,
    decreases name.len(),
{
    if name.len() > 0 && name[0] != DOT {
        lemma_first_dot(name.drop_first());
    }
}

/// A name is its labels with dots between them.
pub(crate) proof fn lemma_dotted_labels_of(name: Seq<u8>)
    ensures
        labels_of(name).len() >= 1,
        dotted(labels_of(name)) == name,
    decreases name.len(),
{
    lemma_first_dot(name);
    let n = first_dot(name) as int;
    if n < name.len() {
        let tail = labels_of(name.skip(n + 1));
        lemma_dotted_labels_of(name.skip(n + 1));
        assert((seq![name.take(n)] + tail).drop_first() == tail);
    }
}

/// Labels that are within the limits stay so without the first of them.
pub(crate) proof fn lemma_fit_tail(labels: Seq<Seq<u8>>)
    requires
        labels_fit(labels),
        labels.len() > 0,
    ensures
        labels_fit(labels.drop_first()),
        1 <= labels[0].len() <= MAX_LABEL_LEN,
{
    let tail = labels.drop_first();
    assert forall|i: int| 0 <= i < tail.len() implies 1 <= (#[trigger] tail[i]).len()
        <= MAX_LABEL_LEN by {
        assert(tail[i] == labels[i + 1]);
    }
}

/// A label before labels that are within the limits: all are, if it is.
pub(crate) proof fn lemma_fit_cons(first: Seq<u8>, rest: Seq<Seq<u8>>)
    requires
        labels_fit(rest),
        1 <= first.len() <= MAX_LABEL_LEN,
    ensures
        labels_fit(seq![first] + rest),
{
    let all = seq![first] + rest;
    assert forall|i: int| 0 <= i < all.len() implies 1 <= (#[trigger] all[i]).len()
        <= MAX_LABEL_LEN by {
        if i > 0 {
            assert(all[i] == rest[i - 1]);
        }
    }
}

/// Two runs of labels that are within the limits together are so apart.
pub(crate) proof fn lemma_fit_parts(head: Seq<Seq<u8>>, tail: Seq<Seq<u8>>)
    requires
        labels_fit(head + tail),
    ensures
        labels_fit(head),
        labels_fit(tail),
{
    let all = head + tail;
    assert forall|i: int| 0 <= i < head.len() implies 1 <= (#[trigger] head[i]).len()
        <= MAX_LABEL_LEN by {
        assert(head[i] == all[i]);
    }
    assert forall|i: int| 0 <= i < tail.len() implies 1 <= (#[trigger] tail[i]).len()
        <= MAX_LABEL_LEN by {
        assert(tail[i] == all[head.len() + i]);
    }
}

/// Adding labels never shortens a name.
pub(crate) proof fn lemma_grown_by_bounds(used: int, labels: Seq<Seq<u8>>)
    requires
        used >= 0,
    ensures
        grown_by(used, labels) >= used,
    decreases labels.len(),
{
    if labels.len() > 0 {
        lemma_grown_by_bounds(grown(used, labels[0].len() as int), labels.drop_first());
    }
}

/// Adding two runs of labels in turn is adding them at once.
pub(crate) proof fn lemma_grown_by_concat(used: int, a: Seq<Seq<u8>>, b: Seq<Seq<u8>>)
    ensures
        grown_by(grown_by(used, a), b) == grown_by(used, a + b),
    decreases a.len(),
{
    if a.len() == 0 {
        assert(a + b == b);
    } else {
        lemma_grown_by_concat(grown(used, a[0].len() as int), a.drop_first(), b);
        assert((a + b).drop_first() == a.drop_first() + b);
    }
}

/// Labels added to the empty name give the length of their dotted name.
pub(crate) proof fn lemma_grown_by_dotted(used: int, labels: Seq<Seq<u8>>)
    requires
        used >= 0,
        labels_fit(labels),
    ensures
        grown_by(used, labels) == if labels.len() == 0 {
            used
        } else {
            grown(used, dotted(labels).len() as int)
        },
    decreases labels.len(),
{
    if labels.len() > 0 {
        lemma_fit_tail(labels);
        lemma_grown_by_dotted(grown(used, labels[0].len() as int), labels.drop_first());
    }
}

/// Where labels stand on the wire at `pos`, the first of them stands there
/// behind its length, and the others behind it.
pub(crate) proof fn lemma_run_split(buf: Seq<u8>, pos: int, labels: Seq<Seq<u8>>)
    requires
        labels_fit(labels),
        labels.len() > 0,
        0 <= pos,
        pos + label_run(labels).len() <= buf.len(),
        buf.subrange(pos, pos + label_run(labels).len()) == label_run(labels),
    ensures
        label_run(labels).len() == 1 + labels[0].len() + label_run(labels.drop_first()).len(),
        buf[pos] == labels[0].len(),
        buf.subrange(pos + 1, pos + 1 + labels[0].len()) == labels[0],
        buf.subrange(
            pos + 1 + labels[0].len(),
            pos + 1 + labels[0].len() + label_run(labels.drop_first()).len(),
        ) == label_run(labels.drop_first()),
{
    let run = label_run(labels);
    let first = labels[0];
    let rest = label_run(labels.drop_first());
    let here = buf.subrange(pos, pos + run.len());
    let next = pos + 1 + first.len();
    assert(run == seq![first.len() as u8] + first + rest);
    assert(buf[pos] == here[0]);
    assert forall|i: int| 0 <= i < first.len() implies buf.subrange(pos + 1, next)[i]
        == first[i] by {
        assert(buf[pos + 1 + i] == here[1 + i]);
    }
    assert forall|i: int| 0 <= i < rest.len() implies buf.subrange(next, next + rest.len())[i]
        == rest[i] by {
        assert(buf[next + i] == here[1 + first.len() + i]);
    }
}

/// Labels that stand on the wire at `pos` are read one by one, and the walk
/// goes on behind them.
pub(crate) proof fn lemma_read_run(
    buf: Seq<u8>,
    pos: int,
    labels: Seq<Seq<u8>>,
    visited: Set<int>,
    used: int,
)
    requires
        labels_fit(labels),
        used >= 0,
        0 <= pos,
        pos + label_run(labels).len() <= buf.len(),
        buf.subrange(pos, pos + label_run(labels).len()) == label_run(labels),
        grown_by(used, labels) <= MAX_NAME_LEN,
    ensures
        read_labels(buf, pos, visited, used) == prepend(
            labels,
            read_labels(buf, pos + label_run(labels).len(), visited, grown_by(used, labels)),
        ),
    decreases labels.len(),
{
    if labels.len() == 0 {
        assert(prepend(labels, read_labels(buf, pos, visited, used)) == read_labels(
            buf,
            pos,
            visited,
            used,
        )) by {
            if let Ok((more, _)) = read_labels(buf, pos, visited, used) {
                assert(labels + more == more);
            }
        }
    } else {
        let first = labels[0];
        let tail = labels.drop_first();
        let next = pos + 1 + first.len();
        let used_next = grown(used, first.len() as int);
        lemma_run_split(buf, pos, labels);
        lemma_fit_tail(labels);
        lemma_grown_by_bounds(used_next, tail);
        lemma_read_run(buf, next, tail, visited, used_next);
        let rest = read_labels(buf, next + label_run(tail).len(), visited, grown_by(used, labels));
        if let Ok((more, _)) = rest {
            assert(seq![first] + (tail + more) == labels + more);
        }
    }
}

/// A whole name that stands on the wire at `pos` is read to its zero byte.
pub(crate) proof fn lemma_read_wire(
    buf: Seq<u8>,
    pos: int,
    labels: Seq<Seq<u8>>,
    visited: Set<int>,
    used: int,
)
    requires
        labels_fit(labels),
        used >= 0,
        0 <= pos,
        pos + wire_form(labels).len() <= buf.len(),
        buf.subrange(pos, pos + wire_form(labels).len()) == wire_form(labels),
        grown_by(used, labels) <= MAX_NAME_LEN,
    ensures
        read_labels(buf, pos, visited, used) == LabelWalk::Ok(
            (labels, pos + wire_form(labels).len()),
        ),
{
    let run = label_run(labels);
    let here = buf.subrange(pos, pos + wire_form(labels).len());
    assert(buf.subrange(pos, pos + run.len()) == run) by {
        assert forall|i: int| 0 <= i < run.len() implies buf.subrange(pos, pos + run.len())[i]
            == run[i] by {
            assert(buf[pos + i] == here[i]);
        }
    }
    assert(buf[pos + run.len()] == here[run.len() as int]);
    assert(labels + Seq::<Seq<u8>>::empty() == labels);
    lemma_read_run(buf, pos, labels, visited, used);
}

/// Reading labels that stand on the wire and make too long a name fails as
/// malformed.
pub(crate) proof fn lemma_read_run_too_long(
    buf: Seq<u8>,
    pos: int,
    labels: Seq<Seq<u8>>,
    visited: Set<int>,
    used: int,
)
    requires
        labels_fit(labels),
        0 <= used <= MAX_NAME_LEN,
        0 <= pos,
        pos + label_run(labels).len() <= buf.len(),
        buf.subrange(pos, pos + label_run(labels).len()) == label_run(labels),
        grown_by(used, labels) > MAX_NAME_LEN,
    ensures
        read_labels(buf, pos, visited, used) == LabelWalk::Err(DnsError::MalformedName),
    decreases labels.len(),
{
    let first = labels[0];
    let used_next = grown(used, first.len() as int);
    lemma_run_split(buf, pos, labels);
    lemma_fit_tail(labels);
    if used_next <= MAX_NAME_LEN {
        lemma_read_run_too_long(
            buf,
            pos + 1 + first.len(),
            labels.drop_first(),
            visited,
            used_next,
        );
    }
}

/// A walk that succeeds ends behind where it began and within the buffer.
pub(crate) proof fn lemma_read_labels_end(buf: Seq<u8>, pos: int, visited: Set<int>, used: int)
    requires
        read_labels(buf, pos, visited, used) is Ok,
    ensures
        0 <= pos < read_labels(buf, pos, visited, used)->Ok_0.1 <= buf.len(),
    decreases MAX_NAME_LEN - used, pos,
{
    if buf[pos] != 0 && buf[pos] < POINTER_TAG {
        let len = buf[pos] as int;
        lemma_read_labels_end(buf, pos + 1 + len, visited, grown(used, len));
    }
}

/// A walk that succeeds on a buffer does the same on a shorter one, unless
/// it misses a byte there.
pub(crate) proof fn lemma_read_labels_cut(
    buf: Seq<u8>,
    cut: int,
    pos: int,
    visited: Set<int>,
    used: int,
)
    requires
        0 <= cut <= buf.len(),
        read_labels(buf, pos, visited, used) is Ok,
    ensures
        read_labels(buf.take(cut), pos, visited, used) == read_labels(buf, pos, visited, used)
            || read_labels(buf.take(cut), pos, visited, used) == LabelWalk::Err(
            DnsError::Truncated,
        ),
    decreases MAX_NAME_LEN - used, pos,
{
    let short = buf.take(cut);
    if pos < cut && buf[pos] != 0 {
        if buf[pos] >= POINTER_TAG {
            if pos + 1 < cut {
                let target = pointer_target(buf, pos);
                assert(pointer_target(short, pos) == target);
                lemma_read_labels_cut(buf, cut, target, visited.insert(target), used);
            }
        } else {
            let len = buf[pos] as int;
            let next = pos + 1 + len;
            if next <= cut {
                assert(short.subrange(pos + 1, next) == buf.subrange(pos + 1, next));
                lemma_read_labels_cut(buf, cut, next, visited, grown(used, len));
            }
        }
    }
}

/// The labels that a walk reads are within the limits, and so is the name
/// that they make with what was read before them.
pub(crate) proof fn lemma_read_labels_fit(buf: Seq<u8>, pos: int, visited: Set<int>, used: int)
    requires
        0 <= used <= MAX_NAME_LEN,
        read_labels(buf, pos, visited, used) is Ok,
    ensures
        labels_fit(read_labels(buf, pos, visited, used)->Ok_0.0),
        grown_by(used, read_labels(buf, pos, visited, used)->Ok_0.0) <= MAX_NAME_LEN,
    decreases MAX_NAME_LEN - used, pos,
{
    if buf[pos] == 0 {
    } else if buf[pos] >= POINTER_TAG {
        let target = pointer_target(buf, pos);
        lemma_read_labels_fit(buf, target, visited.insert(target), used);
    } else {
        let len = buf[pos] as int;
        let next = pos + 1 + len;
        let first = buf.subrange(pos + 1, next);
        let rest = read_labels(buf, next, visited, grown(used, len))->Ok_0.0;
        lemma_read_labels_fit(buf, next, visited, grown(used, len));
        lemma_fit_cons(first, rest);
        assert((seq![first] + rest).drop_first() == rest);
    }
}

/// A name that is decoded ends behind where it began and within the buffer.
pub(crate) proof fn lemma_decode_end(buf: Seq<u8>, pos: int)
    requires
        decode_spec(buf, pos) is Ok,
    ensures
        0 <= pos < decode_spec(buf, pos)->Ok_0.1 <= buf.len(),
{
    lemma_read_labels_end(buf, pos, set![pos], 0);
}

/// A name that is decoded from a buffer is decoded alike from a shorter
/// one, unless it misses a byte there.
pub(crate) proof fn lemma_decode_cut(buf: Seq<u8>, cut: int, pos: int)
    requires
        0 <= cut <= buf.len(),
        decode_spec(buf, pos) is Ok,
    ensures
        decode_spec(buf.take(cut), pos) == decode_spec(buf, pos) || decode_spec(
            buf.take(cut),
            pos,
        ) == NameWalk::Err(DnsError::Truncated),
{
    lemma_read_labels_cut(buf, cut, pos, set![pos], 0);
}

/// A valid name that stands encoded at `offset` of a buffer is decoded to
/// itself, and decoding ends where its encoding ends.
pub proof fn encoded_name_decodes_in_place(buf: Seq<u8>, offset: int, name: Seq<u8>)
    requires
        valid_name(name),
        0 <= offset,
        offset + encode_spec(name).len() <= buf.len(),
        buf.subrange(offset, offset + encode_spec(name).len()) == encode_spec(name),
    ensures
        decode_spec(buf, offset) == NameWalk::Ok((name, offset + encode_spec(name).len())),
{
    let labels = labels_of(name);
    lemma_dotted_labels_of(name);
    lemma_grown_by_dotted(0, labels);
    lemma_read_wire(buf, offset, labels, set![offset], 0);
}

/// Round trip: decoding the encoding of a valid name from its first byte
/// gives the name back, with the length of the encoding as the offset
/// behind it.
pub proof fn encode_decode_round_trip(name: Seq<u8>)
    requires
        valid_name(name),
    ensures
        decode_spec(encode_spec(name), 0) == NameWalk::Ok((name, encode_spec(name).len() as int)),
{
    let wire = encode_spec(name);
    assert(wire.subrange(0, wire.len() as int) == wire);
    encoded_name_decodes_in_place(wire, 0, name);
}

/// Compression equivalence: a name written as some labels of its own and
/// then a pointer to a name that stands, in full, earlier in the buffer
/// decodes to the same dotted name as the plain encoding of all its labels.
/// Decoding ends behind the pointer.
pub proof fn compressed_name_decodes_as_plain(
    buf: Seq<u8>,
    start: int,
    head: Seq<Seq<u8>>,
    target: int,
    tail: Seq<Seq<u8>>,
)
    requires
        labels_fit(head + tail),
        dotted(head + tail).len() <= MAX_NAME_LEN,
        0 <= target < 0x4000,
        target + wire_form(tail).len() <= start,
        buf.subrange(target, target + wire_form(tail).len()) == wire_form(tail),
        start + label_run(head).len() + 2 <= buf.len(),
        buf.subrange(start, start + label_run(head).len()) == label_run(head),
        buf[start + label_run(head).len()] == POINTER_TAG + target / 256,
        buf[start + label_run(head).len() + 1] == target % 256,
    ensures
        decode_spec(buf, start) == NameWalk::Ok(
            (dotted(head + tail), start + label_run(head).len() + 2),
        ),
        decode_spec(wire_form(head + tail), 0) == NameWalk::Ok(
            (dotted(head + tail), wire_form(head + tail).len() as int),
        ),
{
    let all = head + tail;
    let used = grown_by(0, head);
    lemma_fit_parts(head, tail);
    lemma_grown_by_dotted(0, all);
    lemma_grown_by_concat(0, head, tail);
    lemma_grown_by_bounds(0, head);
    lemma_grown_by_bounds(used, tail);
    lemma_read_run(buf, start, head, set![start], 0);
    assert(pointer_target(buf, start + label_run(head).len()) == target);
    lemma_read_wire(buf, target, tail, set![start].insert(target), used);

    let wire = wire_form(all);
    assert(wire.subrange(0, wire.len() as int) == wire);
    lemma_read_wire(wire, 0, all, set![0int], 0);
}

/// A walk that succeeds never meets a pointer to `ptr`, where `ptr` holds a
/// pointer to an offset that the walk has visited: so it succeeds alike
/// when `ptr` counts as visited too.
proof fn lemma_one_more_visited(
    buf: Seq<u8>,
    pos: int,
    visited: Set<int>,
    used: int,
    ptr: int,
)
    requires
        0 <= ptr,
        ptr + 1 < buf.len(),
        buf[ptr] >= POINTER_TAG,
        visited.contains(pointer_target(buf, ptr)),
        read_labels(buf, pos, visited, used) is Ok,
    ensures
        read_labels(buf, pos, visited.insert(ptr), used) == read_labels(buf, pos, visited, used),
    decreases MAX_NAME_LEN - used, pos,
{
    if buf[pos] == 0 {
    } else if buf[pos] >= POINTER_TAG {
        let target = pointer_target(buf, pos);
        if target != ptr {
            lemma_one_more_visited(buf, target, visited.insert(target), used, ptr);
            assert(visited.insert(target).insert(ptr) == visited.insert(ptr).insert(target));
        }
    } else {
        let len = buf[pos] as int;
        lemma_one_more_visited(buf, pos + 1 + len, visited, grown(used, len), ptr);
    }
}

/// Compression equivalence: a pointer to an earlier offset decodes to the
/// name that decoding finds at that offset, however that name is written
/// there. Decoding ends behind the pointer.
pub proof fn pointer_decodes_as_its_target(buf: Seq<u8>, ptr: int)
    requires
        0 <= ptr,
        ptr + 1 < buf.len(),
        buf[ptr] >= POINTER_TAG,
        pointer_target(buf, ptr) < ptr,
        decode_spec(buf, pointer_target(buf, ptr)) is Ok,
    ensures
        decode_spec(buf, ptr) == NameWalk::Ok(
            (decode_spec(buf, pointer_target(buf, ptr))->Ok_0.0, ptr + 2),
        ),
{
    let target = pointer_target(buf, ptr);
    lemma_one_more_visited(buf, target, set![target], 0, ptr);
    assert(set![target].insert(ptr) == set![ptr].insert(target));
}

/// Cycle rejection: a pointer that leads to itself, or to anywhere behind
/// itself, is malformed.
pub proof fn pointer_not_backwards_is_rejected(buf: Seq<u8>, pos: int)
    requires
        0 <= pos,
        pos + 1 < buf.len(),
        buf[pos] >= POINTER_TAG,
        pointer_target(buf, pos) >= pos,
    ensures
        decode_spec(buf, pos) == NameWalk::Err(DnsError::MalformedName),
{
}

/// How the walk from `pos` stands when it comes to read at offset `at`:
/// the offsets visited and the length of the name read by then. Nothing,
/// where the walk ends or fails before it comes there.
pub open spec fn walk_state_at(buf: Seq<u8>, pos: int, visited: Set<int>, used: int, at: int)
    -> Option<(Set<int>, int)>
    decreases MAX_NAME_LEN - used, pos,
{
    if pos == at {
        Some((visited, used))
    } else if pos < 0 || pos >= buf.len() || buf[pos] == 0 {
        None
    } else if buf[pos] >= POINTER_TAG {
        let target = pointer_target(buf, pos);
        if pos + 1 >= buf.len() || target >= pos || visited.contains(target) {
            None
        } else {
            walk_state_at(buf, target, visited.insert(target), used, at)
        }
    } else {
        let len = buf[pos] as int;
        if len > MAX_LABEL_LEN || pos + 1 + len > buf.len() || grown(used, len) > MAX_NAME_LEN {
            None
        } else {
            walk_state_at(buf, pos + 1 + len, visited, grown(used, len), at)
        }
    }
}

/// A failure anywhere on a walk is the failure of the walk.
pub(crate) proof fn lemma_walk_fails(
    buf: Seq<u8>,
    pos: int,
    visited: Set<int>,
    used: int,
    at: int,
    e: DnsError,
)
    requires
        walk_state_at(buf, pos, visited, used, at) matches Some((seen, read)) && read_labels(
            buf,
            at,
            seen,
            read,
        ) == LabelWalk::Err(e),
    ensures
        read_labels(buf, pos, visited, used) == LabelWalk::Err(e),
    decreases MAX_NAME_LEN - used, pos,
{
    if pos != at {
        if buf[pos] >= POINTER_TAG {
            let target = pointer_target(buf, pos);
            lemma_walk_fails(buf, target, visited.insert(target), used, at, e);
        } else {
            let len = buf[pos] as int;
            lemma_walk_fails(buf, pos + 1 + len, visited, grown(used, len), at, e);
        }
    }
}

/// Cycle rejection: a name is malformed as soon as decoding it comes,
/// over any chain of labels and pointers, to a pointer that leads to an
/// offset where the chain has been.
pub proof fn revisiting_chain_is_rejected(buf: Seq<u8>, start: int, at: int)
    requires
        0 <= at,
        at + 1 < buf.len(),
        buf[at] >= POINTER_TAG,
        walk_state_at(buf, start, set![start], 0, at) matches Some((seen, _)) && seen.contains(
            pointer_target(buf, at),
        ),
    ensures
        decode_spec(buf, start) == NameWalk::Err(DnsError::MalformedName),
{
    lemma_walk_fails(buf, start, set![start], 0, at, DnsError::MalformedName);
}

/// Labels that end in a pointer back to their own first byte are malformed
/// for a walk that has visited that byte.
proof fn lemma_loop_is_rejected(buf: Seq<u8>, target: int, labels: Seq<Seq<u8>>, visited: Set<int>)
    requires
        labels_fit(labels),
        0 <= target,
        target + label_run(labels).len() + 2 <= buf.len(),
        buf.subrange(target, target + label_run(labels).len()) == label_run(labels),
        buf[target + label_run(labels).len()] >= POINTER_TAG,
        pointer_target(buf, target + label_run(labels).len()) == target,
        visited.contains(target),
    ensures
        read_labels(buf, target, visited, 0) == LabelWalk::Err(DnsError::MalformedName),
{
    if grown_by(0, labels) <= MAX_NAME_LEN {
        lemma_read_run(buf, target, labels, visited, 0);
    } else {
        lemma_read_run_too_long(buf, target, labels, visited, 0);
    }
}

/// Cycle rejection: labels that end in a pointer back to their own first
/// byte make a loop. Decoding is malformed whether it starts at the labels
/// or at the pointer.
pub proof fn pointer_loop_is_rejected(buf: Seq<u8>, target: int, labels: Seq<Seq<u8>>)
    requires
        labels_fit(labels),
        0 <= target,
        target + label_run(labels).len() + 2 <= buf.len(),
        buf.subrange(target, target + label_run(labels).len()) == label_run(labels),
        buf[target + label_run(labels).len()] >= POINTER_TAG,
        pointer_target(buf, target + label_run(labels).len()) == target,
    ensures
        decode_spec(buf, target) == NameWalk::Err(DnsError::MalformedName),
        decode_spec(buf, target + label_run(labels).len()) == NameWalk::Err(
            DnsError::MalformedName,
        ),
{
    let ptr = target + label_run(labels).len();
    lemma_loop_is_rejected(buf, target, labels, set![target]);
    if target < ptr {
        lemma_loop_is_rejected(buf, target, labels, set![ptr].insert(target));
    }
}

/// A name that is decoded is within the limits: its dotted form has at most
/// 255 bytes. Decoding ends behind where it began and within the buffer.
pub proof fn decoded_name_is_bounded(buf: Seq<u8>, offset: int)
    requires
        decode_spec(buf, offset) is Ok,
    ensures
        decode_spec(buf, offset)->Ok_0.0.len() <= MAX_NAME_LEN,
        0 <= offset < decode_spec(buf, offset)->Ok_0.1 <= buf.len(),
{
    lemma_read_labels_fit(buf, offset, set![offset], 0);
    lemma_read_labels_end(buf, offset, set![offset], 0);
    lemma_grown_by_dotted(0, read_labels(buf, offset, set![offset], 0)->Ok_0.0);
}

} // verus!
