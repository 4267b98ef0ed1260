//! Domain names on the wire: encoding a dotted name as length-prefixed
//! labels, and decoding one, compression pointers included.

use crate::buffer::buffer_bytes;
use crate::buffer::buffer_to_vec;
use crate::buffer::buffer_with_capacity;
use crate::buffer::put_slice;
use crate::buffer::put_u8;
use crate::error::DnsError;
use vstd::prelude::*;
use vstd::slice::slice_subrange;
use vstd::string::StringSliceAdditionalSpecFns;

verus! {

/// The longest label that the wire format can carry.
pub const MAX_LABEL_LEN: usize = 63;

/// The longest dotted name that is encoded or decoded.
pub const MAX_NAME_LEN: usize = 255;

/// The byte that separates the labels of a dotted name.
pub const DOT: u8 = 0x2E;

/// The smallest first byte of a compression pointer: its top two bits set.
pub const POINTER_TAG: u8 = 0xC0;

/// What decoding yields in the model: the labels read and the offset behind
/// the name's first occurrence, or the reason for the failure.
pub type LabelWalk = Result<(Seq<Seq<u8>>, int), DnsError>;

/// What decoding yields in the model: the dotted name and the offset behind
/// its first occurrence, or the reason for the failure.
pub type NameWalk = Result<(Seq<u8>, int), DnsError>;

/// The number of bytes of `name` before its first dot; the whole length
/// where it has none.
pub open spec fn first_dot(name: Seq<u8>) -> nat
    decreases name.len(),
{
    if name.len() == 0 || name[0] == DOT {
        0
    } else {
        1 + first_dot(name.drop_first())
    }
}

/// The labels of a dotted name: the runs of bytes between its dots. A name
/// without a dot is one label, and so is the empty name.
pub open spec fn labels_of(name: Seq<u8>) -> Seq<Seq<u8>>
    decreases name.len(),
{
    let n = first_dot(name) as int;
    if n >= name.len() {
        seq![name]
    } else {
        seq![name.take(n)] + labels_of(name.skip(n + 1))
    }
}

/// The dotted name made of `labels`: the labels in order with a dot between
/// each two.
pub open spec fn dotted(labels: Seq<Seq<u8>>) -> Seq<u8>
    decreases labels.len(),
{
    if labels.len() == 0 {
        Seq::empty()
    } else if labels.len() == 1 {
        labels[0]
    } else {
        labels[0] + seq![DOT] + dotted(labels.drop_first())
    }
}

/// Every label has between 1 and 63 bytes.
pub open spec fn labels_fit(labels: Seq<Seq<u8>>) -> bool {
    forall|i: int| 0 <= i < labels.len() ==> 1 <= (#[trigger] labels[i]).len() <= MAX_LABEL_LEN
}

/// A dotted name that can be put on the wire: at most 255 bytes, and each
/// label between 1 and 63 bytes. The empty name and a name with a leading,
/// trailing or doubled dot have an empty label and are not valid.
pub open spec fn valid_name(name: Seq<u8>) -> bool {
    name.len() <= MAX_NAME_LEN && labels_fit(labels_of(name))
}

/// The labels as they stand on the wire, one behind the other: each label
/// behind its length byte.
pub open spec fn label_run(labels: Seq<Seq<u8>>) -> Seq<u8>
    decreases labels.len(),
{
    if labels.len() == 0 {
        Seq::empty()
    } else {
        seq![labels[0].len() as u8] + labels[0] + label_run(labels.drop_first())
    }
}

/// The wire form of a sequence of labels: the labels, then the zero byte of
/// the root.
pub open spec fn wire_form(labels: Seq<Seq<u8>>) -> Seq<u8> {
    label_run(labels) + seq![0u8]
}

/// The wire form of a dotted name.
pub open spec fn encode_spec(name: Seq<u8>) -> Seq<u8> {
    wire_form(labels_of(name))
}

/// The length of a dotted name of `used` bytes once a label of `label_len`
/// bytes is added to it.
pub open spec fn grown(used: int, label_len: int) -> int {
    if used == 0 {
        label_len
    } else {
        used + 1 + label_len
    }
}

/// The offset that the pointer at `pos` leads to: the low six bits of its
/// first byte and the eight of its second.
pub open spec fn pointer_target(buf: Seq<u8>, pos: int) -> int {
    (buf[pos] - POINTER_TAG) * 256 + buf[pos + 1]
}

/// Reads labels from `pos` on. `visited` holds the offsets at which reading
/// began or to which a pointer led so far, `used` the length of the dotted
/// name read so far.
///
/// A zero byte ends the name. A byte with both top bits set begins a
/// pointer, which must lead to a smaller offset that was not visited; the
/// labels are then read from there, and the name ends behind the pointer. A
/// byte up to 63 is the length of a label. Any other byte is malformed, and
/// so is a name that grows past 255 bytes. A byte that is needed and lies
/// behind the buffer's end makes the name truncated.
pub open spec fn read_labels(buf: Seq<u8>, pos: int, visited: Set<int>, used: int) -> LabelWalk
    decreases MAX_NAME_LEN - used, pos,
{
    if pos < 0 || pos >= buf.len() {
        Err(DnsError::Truncated)
    } else if buf[pos] == 0 {
        Ok((Seq::empty(), pos + 1))
    } else if buf[pos] >= POINTER_TAG {
        if pos + 1 >= buf.len() {
            Err(DnsError::Truncated)
        } else {
            let target = pointer_target(buf, pos);
            if target >= pos || visited.contains(target) {
                Err(DnsError::MalformedName)
            } else {
                match read_labels(buf, target, visited.insert(target), used) {
                    Ok((labels, _)) => Ok((labels, pos + 2)),
                    Err(e) => Err(e),
                }
            }
        }
    } else if buf[pos] > MAX_LABEL_LEN {
        Err(DnsError::MalformedName)
    } else {
        let len = buf[pos] as int;
        if pos + 1 + len > buf.len() {
            Err(DnsError::Truncated)
        } else if grown(used, len) > MAX_NAME_LEN {
            Err(DnsError::MalformedName)
        } else {
            match read_labels(buf, pos + 1 + len, visited, grown(used, len)) {
                Ok((labels, end)) => Ok((seq![buf.subrange(pos + 1, pos + 1 + len)] + labels, end)),
                Err(e) => Err(e),
            }
        }
    }
}

/// The name that starts at `offset` of `buf`, as a dotted name, with the
/// offset behind its first occurrence in the buffer.
pub open spec fn decode_spec(buf: Seq<u8>, offset: int) -> NameWalk {
    match read_labels(buf, offset, set![offset], 0) {
        Ok((labels, end)) => Ok((dotted(labels), end)),
        Err(e) => Err(e),
    }
}

/// Where the label that begins at `start` ends: at the next dot, or at the
/// end of the name.
fn label_end(name: &[u8], start: usize) -> (end: usize)
    requires
        start <= name@.len(),
    ensures
        start <= end <= name@.len(),
        end - start == first_dot(name@.skip(start as int)),
{
    let mut i = start;
    while i < name.len() && name[i] != DOT
        invariant
            start <= i <= name@.len(),
            first_dot(name@.skip(start as int)) == (i - start) + first_dot(name@.skip(i as int)),
        decreases name@.len() - i,
    {
        assert(name@.skip(i as int).drop_first() == name@.skip(i + 1));
        i += 1;
    }
    i
}

/// Splitting off the first label of a name that begins at `start`.
proof fn lemma_labels_step(name: Seq<u8>, start: int, end: int)
    requires
        0 <= start <= end <= name.len(),
        end - start == first_dot(name.skip(start)),
    ensures
        end == name.len() ==> labels_of(name.skip(start)) == seq![name.subrange(start, end)],
        end < name.len() ==> labels_of(name.skip(start)) == seq![name.subrange(start, end)]
            + labels_of(name.skip(end + 1)),
{
    let rest = name.skip(start);
    assert(rest.take(end - start) == name.subrange(start, end));
    if end < name.len() {
        assert(rest.skip(end - start + 1) == name.skip(end + 1));
    }
}

/// Puts a dotted name on the wire: each label behind its length byte, then
/// the zero byte of the root. A name that is not valid is refused.
pub fn encode_name_bytes(name: &[u8]) -> (r: Result<Vec<u8>, DnsError>)
    ensures
        match r {
            Ok(bytes) => valid_name(name@) && bytes@ == encode_spec(name@) && bytes@.len()
                == name@.len() + 2,
            Err(e) => !valid_name(name@) && e == DnsError::InvalidName,
        },
{
    let n = name.len();
    if n > MAX_NAME_LEN {
        return Err(DnsError::InvalidName);
    }
    let mut out = buffer_with_capacity(n + 2);
    let mut start: usize = 0;
    assert(name@.skip(0) == name@);
    loop
        invariant
            n == name@.len(),
            n <= MAX_NAME_LEN,
            start <= n,
            buffer_bytes(out).len() == start,
            labels_fit(labels_of(name@)) <==> labels_fit(labels_of(name@.skip(start as int))),
            encode_spec(name@) == buffer_bytes(out) + label_run(
                labels_of(name@.skip(start as int)),
            ) + seq![0u8],
        decreases n - start,
    {
        let end = label_end(name, start);
        let len = end - start;
        let ghost rest = labels_of(name@.skip(start as int));
        proof {
            lemma_labels_step(name@, start as int, end as int);
        }
        if len == 0 || len > MAX_LABEL_LEN {
            return Err(DnsError::InvalidName);
        }
        put_u8(&mut out, len as u8);
        put_slice(&mut out, slice_subrange(name, start, end));
        if end == n {
            put_u8(&mut out, 0);
            proof {
                assert(rest.drop_first() == Seq::<Seq<u8>>::empty());
                assert(label_run(Seq::<Seq<u8>>::empty()) == Seq::<u8>::empty());
            }
            return Ok(buffer_to_vec(&out));
        }
        proof {
            let tail = labels_of(name@.skip(end + 1));
            assert(rest.drop_first() == tail);
            assert(labels_fit(rest) ==> labels_fit(tail));
            assert(labels_fit(tail) ==> labels_fit(rest));
        }
        start = end + 1;
    }
}

/// Puts a dotted name, given as text, on the wire. The name is taken byte by
/// byte as the text holds it.
pub fn encode_name(name: &str) -> (r: Result<Vec<u8>, DnsError>)
    ensures
        match r {
            Ok(bytes) => valid_name(name.spec_bytes()) && bytes@ == encode_spec(name.spec_bytes())
                && bytes@.len() == name.spec_bytes().len() + 2,
            Err(e) => !valid_name(name.spec_bytes()) && e == DnsError::InvalidName,
        },
{
    encode_name_bytes(name.as_bytes())
}

/// What a walk yields once `labels` were read before it and, where `end` is
/// set, a pointer was followed before it.
spec fn resume(labels: Seq<Seq<u8>>, end: Option<int>, rest: LabelWalk) -> LabelWalk {
    match rest {
        Ok((more, stop)) => Ok(
            (
                labels + more,
                match end {
                    Some(e) => e,
                    None => stop,
                },
            ),
        ),
        Err(e) => Err(e),
    }
}

/// The dotted name grows at its end as it does at its front.
proof fn lemma_dotted_push(labels: Seq<Seq<u8>>, label: Seq<u8>)
    ensures
        dotted(labels.push(label)) == if labels.len() == 0 {
            label
        } else {
            dotted(labels) + seq![DOT] + label
        },
    decreases labels.len(),
{
    if labels.len() > 0 {
        let tail = labels.drop_first();
        lemma_dotted_push(tail, label);
        assert(labels.push(label).drop_first() == tail.push(label));
    }
}

/// The offsets that `visited` holds, as a set.
spec fn offsets_in(visited: Seq<usize>) -> Set<int> {
    Set::new(|t: int| exists|i: int| 0 <= i < visited.len() && visited[i] as int == t)
}

/// One more offset in the list is one more in the set.
proof fn lemma_offsets_push(visited: Seq<usize>, offset: usize)
    ensures
        offsets_in(visited.push(offset)) == offsets_in(visited).insert(offset as int),
{
    let grown = visited.push(offset);
    assert forall|t: int| offsets_in(grown).contains(t) implies offsets_in(visited).insert(
        offset as int,
    ).contains(t) by {
        let i = choose|i: int| 0 <= i < grown.len() && grown[i] as int == t;
        assert(i < visited.len() ==> visited[i] == grown[i]);
    }
    assert forall|t: int|
        offsets_in(visited).insert(offset as int).contains(t) implies offsets_in(grown).contains(
        t,
    ) by {
        if t == offset as int {
            assert(grown[visited.len() as int] as int == t);
        } else {
            let i = choose|i: int| 0 <= i < visited.len() && visited[i] as int == t;
            assert(grown[i] as int == t);
        }
    }
}

/// Whether `offset` is among the offsets in `visited`.
fn was_visited(visited: &Vec<usize>, offset: usize) -> (found: bool)
    ensures
        found == offsets_in(visited@).contains(offset as int),
{
    let mut i: usize = 0;
    while i < visited.len()
        invariant
            i <= visited@.len(),
            forall|j: int| 0 <= j < i ==> visited@[j] != offset,
        decreases visited@.len() - i,
    {
        if visited[i] == offset {
            return true;
        }
        i += 1;
    }
    false
}

/// Reads the name that starts at `offset`, following compression pointers,
/// and returns it as a dotted name with the offset behind its first
/// occurrence: behind the zero byte where no pointer was met, else behind
/// the first pointer.
pub fn decode_name(buf: &[u8], offset: usize) -> (r: Result<(Vec<u8>, usize), DnsError>)
    ensures
        match r {
            Ok((name, next)) => decode_spec(buf@, offset as int) == NameWalk::Ok(
                (name@, next as int),
            ) && offset < next <= buf@.len(),
            Err(e) => decode_spec(buf@, offset as int) == NameWalk::Err(e),
        },
{
    let mut name: Vec<u8> = Vec::new();
    let mut visited: Vec<usize> = Vec::new();
    visited.push(offset);
    let mut pos: usize = offset;
    let mut end: Option<usize> = None;
    let ghost mut labels: Seq<Seq<u8>> = Seq::empty();
    let ghost whole = read_labels(buf@, offset as int, set![offset as int], 0);
    proof {
        lemma_offsets_push(Seq::empty(), offset);
        assert(offsets_in(visited@) == set![offset as int]);
    }
    loop
        invariant
            name@ == dotted(labels),
            name@.len() <= MAX_NAME_LEN,
            labels.len() == 0 <==> name@.len() == 0,
            whole == read_labels(buf@, offset as int, set![offset as int], 0),
            end matches Some(e) ==> offset < e <= buf@.len(),
            end is None ==> offset <= pos,
            whole == resume(
                labels,
                match end {
                    Some(e) => Some(e as int),
                    None => None,
                },
                read_labels(buf@, pos as int, offsets_in(visited@), name@.len() as int),
            ),
        decreases MAX_NAME_LEN - name@.len(), pos,
    {
        if pos >= buf.len() {
            return Err(DnsError::Truncated);
        }
        let b = buf[pos];
        if b == 0 {
            let next = match end {
                Some(e) => e,
                None => pos + 1,
            };
            return Ok((name, next));
        }
        if b >= POINTER_TAG {
            if pos + 1 >= buf.len() {
                return Err(DnsError::Truncated);
            }
            let target = (b - POINTER_TAG) as usize * 256 + buf[pos + 1] as usize;
            if target >= pos || was_visited(&visited, target) {
                return Err(DnsError::MalformedName);
            }
            if end.is_none() {
                end = Some(pos + 2);
            }
            proof {
                lemma_offsets_push(visited@, target);
            }
            visited.push(target);
            pos = target;
        } else if b as usize > MAX_LABEL_LEN {
            return Err(DnsError::MalformedName);
        } else {
            let len = b as usize;
            if len > buf.len() - pos - 1 {
                return Err(DnsError::Truncated);
            }
            let used = if name.len() == 0 {
                len
            } else {
                name.len() + 1 + len
            };
            if used > MAX_NAME_LEN {
                return Err(DnsError::MalformedName);
            }
            let ghost label = buf@.subrange(pos + 1, pos + 1 + len);
            if name.len() > 0 {
                name.push(DOT);
            }
            name.extend_from_slice(slice_subrange(buf, pos + 1, pos + 1 + len));
            proof {
                lemma_dotted_push(labels, label);
                let rest = read_labels(buf@, pos + 1 + len, offsets_in(visited@), used as int);
                if let Ok((more, stop)) = rest {
                    assert(labels + (seq![label] + more) == labels.push(label) + more);
                }
                labels = labels.push(label);
            }
            pos = pos + 1 + len;
        }
    }
}

} // verus!
