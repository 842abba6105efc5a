//! The change-log store and its changeset format.
//!
//! The store holds two tables keyed by 64-bit identifiers: group rows and
//! record rows, where every record row refers to an existing group row
//! (referential integrity). A changeset is a byte string encoding a list of
//! row upserts. Applying a changeset is atomic: either every edit is
//! applied, with an incoming row always replacing a local row of the same
//! identifier (last delivered wins), or the store is left untouched.
//! Each row carries a sequence stamp, and per-peer checkpoints select which
//! rows are pending for a peer.

use vstd::prelude::*;
use crate::errors::MergeError;
use crate::util::assoc_find;
use crate::util::assoc_lookup;
use crate::util::assoc_set;
use crate::util::unique_keys;
use vstd::map::*;

verus! {

/// One row-level upsert.
pub enum Edit {
    /// Ensure a group row with this identifier exists.
    Group { id: u64 },
    /// Insert or replace the record row with this identifier.
    Record { id: u64, group_id: u64, data: Vec<u8> },
}

/// The mathematical value of an [`Edit`].
pub enum EditV {
    Group { id: u64 },
    Record { id: u64, group_id: u64, data: Seq<u8> },
}

impl View for Edit {
    type V = EditV;

    open spec fn view(&self) -> EditV {
        match self {
            Edit::Group { id } => EditV::Group { id: *id },
            Edit::Record { id, group_id, data } => EditV::Record {
                id: *id,
                group_id: *group_id,
                data: data@,
            },
        }
    }
}

/// The eight little-endian bytes of a 64-bit value.
pub open spec fn le64(n: u64) -> Seq<u8> {
    Seq::new(8, |i: int| ((n >> ((8 * i) as u64)) & 0xff) as u8)
}

/// The 64-bit value read from eight little-endian bytes.
pub open spec fn u64_of_le(b: Seq<u8>) -> u64 {
    ((b[0] as u64) | ((b[1] as u64) << 8u64) | ((b[2] as u64) << 16u64) | ((b[3] as u64) << 24u64)
        | ((b[4] as u64) << 32u64) | ((b[5] as u64) << 40u64) | ((b[6] as u64) << 48u64) | ((
    b[7] as u64) << 56u64)) as u64
}

/// Reading back the little-endian bytes of `n` yields `n`.
pub proof fn lemma_le64_roundtrip(n: u64)
    ensures
        u64_of_le(le64(n)) == n,
{
    let b = le64(n);
    assert(b[0] == ((n >> 0u64) & 0xff) as u8);
    assert(b[1] == ((n >> 8u64) & 0xff) as u8);
    assert(b[2] == ((n >> 16u64) & 0xff) as u8);
    assert(b[3] == ((n >> 24u64) & 0xff) as u8);
    assert(b[4] == ((n >> 32u64) & 0xff) as u8);
    assert(b[5] == ((n >> 40u64) & 0xff) as u8);
    assert(b[6] == ((n >> 48u64) & 0xff) as u8);
    assert(b[7] == ((n >> 56u64) & 0xff) as u8);
    assert((((((n >> 0u64) & 0xff) as u8) as u64) | ((((n >> 8u64) & 0xff) as u8) as u64) << 8u64
        | ((((n >> 16u64) & 0xff) as u8) as u64) << 16u64 | ((((n >> 24u64) & 0xff) as u8) as u64)
        << 24u64 | ((((n >> 32u64) & 0xff) as u8) as u64) << 32u64 | ((((n >> 40u64) & 0xff) as u8)
        as u64) << 40u64 | ((((n >> 48u64) & 0xff) as u8) as u64) << 48u64 | ((((n >> 56u64) & 0xff)
        as u8) as u64) << 56u64) as u64 == n) by (bit_vector);
}

/// The byte tag announcing a group edit.
pub open spec fn tag_group() -> u8 {
    1u8
}

/// The byte tag announcing a record edit.
pub open spec fn tag_record() -> u8 {
    2u8
}

/// The byte encoding of one edit: a tag, the fixed-width identifiers, and
/// for records a length-prefixed data field.
pub open spec fn enc_edit(e: EditV) -> Seq<u8> {
    match e {
        EditV::Group { id } => seq![tag_group()] + le64(id),
        EditV::Record { id, group_id, data } => seq![tag_record()] + le64(id) + le64(group_id)
            + le64(data.len() as u64) + data,
    }
}

/// The concatenated encodings of a list of edits.
pub open spec fn enc_edits(es: Seq<EditV>) -> Seq<u8>
    decreases es.len(),
{
    if es.len() == 0 {
        Seq::empty()
    } else {
        enc_edit(es[0]) + enc_edits(es.drop_first())
    }
}

/// The byte encoding of a whole changeset: the edit count, then the edits.
pub open spec fn enc_changeset(es: Seq<EditV>) -> Seq<u8> {
    le64(es.len() as u64) + enc_edits(es)
}

/// An edit whose data field fits the length prefix.
pub open spec fn edit_ok(e: EditV) -> bool {
    match e {
        EditV::Group { .. } => true,
        EditV::Record { data, .. } => data.len() <= u64::MAX,
    }
}

/// A changeset whose count and data lengths fit their prefixes.
pub open spec fn edits_ok(es: Seq<EditV>) -> bool {
    es.len() <= u64::MAX && forall|i: int| 0 <= i < es.len() ==> edit_ok(#[trigger] es[i])
}

/// Parses `n` edits that must consume `b` exactly.
pub open spec fn parse_edits(b: Seq<u8>, n: nat) -> Option<Seq<EditV>>
    decreases n,
{
    if n == 0 {
        if b.len() == 0 {
            Some(Seq::empty())
        } else {
            None
        }
    } else if b.len() >= 9 && b[0] == tag_group() {
        let id = u64_of_le(b.subrange(1, 9));
        match parse_edits(b.skip(9), (n - 1) as nat) {
            Some(es) => Some(seq![EditV::Group { id }] + es),
            None => None,
        }
    } else if b.len() >= 25 && b[0] == tag_record() {
        let id = u64_of_le(b.subrange(1, 9));
        let group_id = u64_of_le(b.subrange(9, 17));
        let dlen = u64_of_le(b.subrange(17, 25));
        if b.len() - 25 >= dlen {
            let data = b.subrange(25, 25 + dlen as int);
            match parse_edits(b.skip(25 + dlen as int), (n - 1) as nat) {
                Some(es) => Some(seq![EditV::Record { id, group_id, data }] + es),
                None => None,
            }
        } else {
            None
        }
    } else {
        None
    }
}

/// Parses a whole changeset; trailing bytes are rejected.
pub open spec fn parse_changeset(b: Seq<u8>) -> Option<Seq<EditV>> {
    if b.len() >= 8 {
        parse_edits(b.skip(8), u64_of_le(b.take(8)) as nat)
    } else {
        None
    }
}

/// Encoding distributes over appending one edit.
pub proof fn lemma_enc_edits_push(es: Seq<EditV>, e: EditV)
    ensures
        enc_edits(es.push(e)) == enc_edits(es) + enc_edit(e),
    decreases es.len(),
{
    if es.len() == 0 {
        assert(es.push(e)[0] == e);
        assert(es.push(e).drop_first() =~= Seq::<EditV>::empty());
        assert(enc_edits(Seq::<EditV>::empty()) == Seq::<u8>::empty());
        assert(enc_edits(es.push(e)) == enc_edit(e) + Seq::<u8>::empty());
        assert(enc_edit(e) + Seq::<u8>::empty() =~= enc_edit(e));
        assert(enc_edits(es) + enc_edit(e) =~= enc_edit(e));
    } else {
        lemma_enc_edits_push(es.drop_first(), e);
        assert(es.push(e)[0] == es[0]);
        assert(es.push(e).drop_first() =~= es.drop_first().push(e));
        assert(enc_edit(es[0]) + (enc_edits(es.drop_first()) + enc_edit(e)) =~= (enc_edit(es[0])
            + enc_edits(es.drop_first())) + enc_edit(e));
    }
}

/// Parsing the encoding of a list of well-formed edits yields it back.
pub proof fn lemma_parse_enc_edits(es: Seq<EditV>)
    requires
        edits_ok(es),
    ensures
        parse_edits(enc_edits(es), es.len()) == Some(es),
    decreases es.len(),
{
    if es.len() == 0 {
        assert(enc_edits(es).len() == 0);
    } else {
        let e = es[0];
        let rest = es.drop_first();
        let b = enc_edits(es);
        assert(b == enc_edit(e) + enc_edits(rest));
        assert(edits_ok(rest)) by {
            assert(forall|i: int|
                0 <= i < rest.len() ==> rest[i] == es[i + 1] && edit_ok(#[trigger] es[i + 1]));
        }
        lemma_parse_enc_edits(rest);
        match e {
            EditV::Group { id } => {
                assert(enc_edit(e).len() == 9);
                assert(b.len() >= 9);
                assert(b[0] == tag_group());
                assert(b.subrange(1, 9) =~= le64(id));
                lemma_le64_roundtrip(id);
                assert(b.skip(9) =~= enc_edits(rest));
                assert(parse_edits(b, es.len()) == Some(seq![e] + rest));
                assert(seq![e] + rest =~= es);
            },
            EditV::Record { id, group_id, data } => {
                assert(enc_edit(e).len() == 25 + data.len());
                assert(b.len() >= 25);
                assert(b[0] == tag_record());
                assert(b.subrange(1, 9) =~= le64(id));
                assert(b.subrange(9, 17) =~= le64(group_id));
                assert(b.subrange(17, 25) =~= le64(data.len() as u64));
                lemma_le64_roundtrip(id);
                lemma_le64_roundtrip(group_id);
                lemma_le64_roundtrip(data.len() as u64);
                assert(b.len() - 25 >= data.len());
                assert(b.subrange(25, 25 + data.len() as int) =~= data);
                assert(b.skip(25 + data.len() as int) =~= enc_edits(rest));
                assert(parse_edits(b, es.len()) == Some(seq![e] + rest));
                assert(seq![e] + rest =~= es);
            },
        }
    }
}

/// Parsing the encoding of a well-formed changeset yields it back.
pub proof fn lemma_parse_enc_changeset(es: Seq<EditV>)
    requires
        edits_ok(es),
    ensures
        parse_changeset(enc_changeset(es)) == Some(es),
{
    let b = enc_changeset(es);
    assert(b.take(8) =~= le64(es.len() as u64));
    lemma_le64_roundtrip(es.len() as u64);
    assert(b.skip(8) =~= enc_edits(es));
    lemma_parse_enc_edits(es);
}

/// Appends the eight little-endian bytes of `n`.
pub fn push_le64(v: &mut Vec<u8>, n: u64)
    ensures
        final(v)@ == old(v)@ + le64(n),
{
    let ghost orig = v@;
    let mut i: u64 = 0;
    while i < 8
        invariant
            i <= 8,
            v@ == orig + le64(n).take(i as int),
        decreases 8 - i,
    {
        proof {
            assert((n >> (8 * i)) & 0xff < 256) by (bit_vector);
        }
        let byte: u8 = ((n >> (8 * i)) & 0xff) as u8;
        v.push(byte);
        proof {
            assert(le64(n)[i as int] == byte);
            assert(orig + le64(n).take(i as int + 1) =~= (orig + le64(n).take(i as int)).push(
                byte,
            ));
        }
        i = i + 1;
    }
    proof {
        assert(orig + le64(n).take(8) =~= orig + le64(n));
    }
}

/// Reads the 64-bit little-endian value at `off`.
pub fn read_u64_le(b: &[u8], off: usize) -> (r: u64)
    requires
        off + 8 <= b@.len(),
    ensures
        r == u64_of_le(b@.subrange(off as int, off as int + 8)),
{
    let r: u64 = (b[off] as u64) | ((b[off + 1] as u64) << 8) | ((b[off + 2] as u64) << 16) | ((
    b[off + 3] as u64) << 24) | ((b[off + 4] as u64) << 32) | ((b[off + 5] as u64) << 40) | ((b[off
        + 6] as u64) << 48) | ((b[off + 7] as u64) << 56);
    proof {
        let s = b@.subrange(off as int, off as int + 8);
        assert(s[0] == b@[off as int]);
        assert(s[1] == b@[off as int + 1]);
        assert(s[2] == b@[off as int + 2]);
        assert(s[3] == b@[off as int + 3]);
        assert(s[4] == b@[off as int + 4]);
        assert(s[5] == b@[off as int + 5]);
        assert(s[6] == b@[off as int + 6]);
        assert(s[7] == b@[off as int + 7]);
    }
    r
}

/// The views of a list of edits.
pub open spec fn edit_views(es: Seq<Edit>) -> Seq<EditV> {
    es.map_values(|e: Edit| e@)
}

/// Encodes a list of edits as changeset bytes.
pub fn encode_changeset(edits: &Vec<Edit>) -> (r: Vec<u8>)
    ensures
        r@ == enc_changeset(edit_views(edits@)),
{
    let ghost evs = edit_views(edits@);
    let mut r: Vec<u8> = Vec::new();
    push_le64(&mut r, edits.len() as u64);
    proof {
        assert(evs.take(0) =~= Seq::<EditV>::empty());
        assert(r@ =~= le64(edits@.len() as u64) + enc_edits(evs.take(0)));
    }
    let mut i: usize = 0;
    while i < edits.len()
        invariant
            i <= edits@.len(),
            evs == edit_views(edits@),
            evs.len() == edits@.len(),
            r@ == le64(edits@.len() as u64) + enc_edits(evs.take(i as int)),
        decreases edits@.len() - i,
    {
        let ghost pre = r@;
        match &edits[i] {
            Edit::Group { id } => {
                r.push(1u8);
                push_le64(&mut r, *id);
                proof {
                    assert(r@ =~= pre + enc_edit(evs[i as int]));
                }
            },
            Edit::Record { id, group_id, data } => {
                r.push(2u8);
                push_le64(&mut r, *id);
                push_le64(&mut r, *group_id);
                push_le64(&mut r, data.len() as u64);
                let mut j: usize = 0;
                let ghost mid = r@;
                while j < data.len()
                    invariant
                        j <= data@.len(),
                        r@ == mid + data@.take(j as int),
                    decreases data@.len() - j,
                {
                    r.push(data[j]);
                    proof {
                        assert(mid + data@.take(j as int + 1) =~= (mid + data@.take(
                            j as int,
                        )).push(data@[j as int]));
                    }
                    j = j + 1;
                }
                proof {
                    assert(mid + data@.take(data@.len() as int) =~= mid + data@);
                    assert(r@ =~= pre + enc_edit(evs[i as int]));
                }
            },
        }
        proof {
            lemma_enc_edits_push(evs.take(i as int), evs[i as int]);
            assert(evs.take(i as int).push(evs[i as int]) =~= evs.take(i as int + 1));
            assert(r@ =~= le64(edits@.len() as u64) + enc_edits(evs.take(i as int + 1)));
        }
        i = i + 1;
    }
    proof {
        assert(evs.take(evs.len() as int) =~= evs);
    }
    r
}

/// Wraps `o` by prepending `a` to a successful parse.
pub open spec fn opt_prepend(a: Seq<EditV>, o: Option<Seq<EditV>>) -> Option<Seq<EditV>> {
    match o {
        Some(t) => Some(a + t),
        None => None,
    }
}

/// Decodes changeset bytes into the list of edits they encode.
pub fn parse_changeset_bytes(b: &[u8]) -> (r: Option<Vec<Edit>>)
    ensures
        match r {
            Some(es) => parse_changeset(b@) == Some(edit_views(es@)),
            None => parse_changeset(b@) is None,
        },
{
    if b.len() < 8 {
        return None;
    }
    let count: u64 = read_u64_le(b, 0);
    proof {
        assert(b@.subrange(0, 8) =~= b@.take(8));
    }
    let mut acc: Vec<Edit> = Vec::new();
    let mut off: usize = 8;
    let mut remaining: u64 = count;
    proof {
        assert(edit_views(acc@) =~= Seq::<EditV>::empty());
        assert(parse_changeset(b@) == opt_prepend(
            edit_views(acc@),
            parse_edits(b@.skip(off as int), remaining as nat),
        ));
    }
    while remaining > 0
        invariant
            8 <= off <= b@.len(),
            parse_changeset(b@) == opt_prepend(
                edit_views(acc@),
                parse_edits(b@.skip(off as int), remaining as nat),
            ),
        decreases remaining,
    {
        let ghost tail = b@.skip(off as int);
        let ghost accv = edit_views(acc@);
        if b.len() - off < 9 {
            proof {
                assert(tail.len() < 9);
                assert(parse_edits(tail, remaining as nat) is None);
            }
            return None;
        }
        let tag: u8 = b[off];
        if tag == 1 {
            let id: u64 = read_u64_le(b, off + 1);
            proof {
                assert(tail[0] == tag_group());
                assert(b@.subrange(off as int + 1, off as int + 9) =~= tail.subrange(1, 9));
            }
            acc.push(Edit::Group { id });
            off = off + 9;
            remaining = remaining - 1;
            proof {
                assert(b@.skip(off as int) =~= tail.skip(9));
                assert(edit_views(acc@) =~= accv.push(EditV::Group { id }));
                lemma_opt_prepend_step(
                    accv,
                    EditV::Group { id },
                    tail.skip(9),
                    remaining as nat,
                    tail,
                );
            }
        } else if tag == 2 {
            if b.len() - off < 25 {
                proof {
                    assert(tail.len() < 25);
                    assert(tail[0] == tag_record());
                    assert(parse_edits(tail, remaining as nat) is None);
                }
                return None;
            }
            let id: u64 = read_u64_le(b, off + 1);
            let group_id: u64 = read_u64_le(b, off + 9);
            let dlen64: u64 = read_u64_le(b, off + 17);
            proof {
                assert(tail[0] == tag_record());
                assert(b@.subrange(off as int + 1, off as int + 9) =~= tail.subrange(1, 9));
                assert(b@.subrange(off as int + 9, off as int + 17) =~= tail.subrange(9, 17));
                assert(b@.subrange(off as int + 17, off as int + 25) =~= tail.subrange(17, 25));
            }
            let avail: usize = b.len() - off - 25;
            if dlen64 > avail as u64 {
                proof {
                    assert(tail.len() - 25 < dlen64);
                    assert(parse_edits(tail, remaining as nat) is None);
                }
                return None;
            }
            let dlen: usize = dlen64 as usize;
            let mut data: Vec<u8> = Vec::new();
            proof {
                assert(off + 25 + dlen <= b@.len());
                assert(b@.subrange(off as int + 25, off as int + 25) =~= data@);
            }
            let mut j: usize = 0;
            while j < dlen
                invariant
                    j <= dlen,
                    off + 25 + dlen <= b@.len(),
                    b@.len() <= usize::MAX,
                    data@ == b@.subrange(off as int + 25, off as int + 25 + j as int),
                decreases dlen - j,
            {
                data.push(b[off + 25 + j]);
                proof {
                    assert(b@.subrange(off as int + 25, off as int + 25 + j as int + 1)
                        =~= b@.subrange(off as int + 25, off as int + 25 + j as int).push(
                        b@[off as int + 25 + j as int],
                    ));
                }
                j = j + 1;
            }
            proof {
                assert(data@ =~= tail.subrange(25, 25 + dlen64 as int));
            }
            let ghost dv = data@;
            acc.push(Edit::Record { id, group_id, data });
            off = off + 25 + dlen;
            remaining = remaining - 1;
            proof {
                assert(b@.skip(off as int) =~= tail.skip(25 + dlen64 as int));
                assert(edit_views(acc@) =~= accv.push(
                    EditV::Record { id, group_id, data: dv },
                ));
                lemma_opt_prepend_step(
                    accv,
                    EditV::Record { id, group_id, data: dv },
                    tail.skip(25 + dlen64 as int),
                    remaining as nat,
                    tail,
                );
            }
        } else {
            proof {
                assert(tail[0] != tag_group() && tail[0] != tag_record());
                assert(parse_edits(tail, remaining as nat) is None);
            }
            return None;
        }
    }
    if off != b.len() {
        proof {
            assert(b@.skip(off as int).len() > 0);
            assert(parse_edits(b@.skip(off as int), 0) is None);
        }
        return None;
    }
    proof {
        assert(b@.skip(off as int).len() == 0);
        assert(parse_edits(b@.skip(off as int), 0) == Some(Seq::<EditV>::empty()));
        assert(edit_views(acc@) + Seq::<EditV>::empty() =~= edit_views(acc@));
    }
    Some(acc)
}

/// The set of group identifiers after folding the group edits of `es` into
/// `g`; record edits leave it unchanged.
pub open spec fn apply_groups(g: Set<u64>, es: Seq<EditV>) -> Set<u64>
    decreases es.len(),
{
    if es.len() == 0 {
        g
    } else {
        let g2 = match es[0] {
            EditV::Group { id } => g.insert(id),
            _ => g,
        };
        apply_groups(g2, es.drop_first())
    }
}

/// The record table after folding the record edits of `es` into `m`: each
/// record edit inserts or replaces the row with its identifier, so the last
/// edit for an identifier wins (last delivered wins).
pub open spec fn apply_records(m: Map<u64, (u64, Seq<u8>)>, es: Seq<EditV>) -> Map<
    u64,
    (u64, Seq<u8>),
>
    decreases es.len(),
{
    if es.len() == 0 {
        m
    } else {
        let m2 = match es[0] {
            EditV::Record { id, group_id, data } => m.insert(id, (group_id, data)),
            _ => m,
        };
        apply_records(m2, es.drop_first())
    }
}

/// True when `es` holds a group edit for `id`.
pub open spec fn has_group_edit(es: Seq<EditV>, id: u64) -> bool
    decreases es.len(),
{
    es.len() > 0 && (es[0] == (EditV::Group { id }) || has_group_edit(es.drop_first(), id))
}

/// The binding of the last record edit for `id` in `es`, if any.
pub open spec fn rec_lookup(es: Seq<EditV>, id: u64) -> Option<(u64, Seq<u8>)>
    decreases es.len(),
{
    if es.len() == 0 {
        None
    } else {
        let tail = rec_lookup(es.drop_first(), id);
        if tail is Some {
            tail
        } else {
            match es[0] {
                EditV::Record { id: id2, group_id, data } => if id2 == id {
                    Some((group_id, data))
                } else {
                    None
                },
                _ => None,
            }
        }
    }
}

/// The group set after `es`, stated directly: the old set plus the edited
/// identifiers.
pub open spec fn groups_after(g: Set<u64>, es: Seq<EditV>) -> Set<u64> {
    Set::new(|id: u64| g.contains(id) || has_group_edit(es, id))
}

/// The record table after `es`, stated directly: the last edit for an
/// identifier wins, identifiers without an edit keep their old row.
pub open spec fn records_after(m: Map<u64, (u64, Seq<u8>)>, es: Seq<EditV>) -> Map<
    u64,
    (u64, Seq<u8>),
> {
    Map::new(
        |id: u64| m.dom().contains(id) || rec_lookup(es, id) is Some,
        |id: u64|
            match rec_lookup(es, id) {
                Some(v) => v,
                None => m[id],
            },
    )
}

/// Folding group edits computes exactly `groups_after`.
pub proof fn lemma_apply_groups_char(g: Set<u64>, es: Seq<EditV>)
    ensures
        apply_groups(g, es) == groups_after(g, es),
    decreases es.len(),
{
    if es.len() == 0 {
        assert(apply_groups(g, es) =~= groups_after(g, es));
    } else {
        let rest = es.drop_first();
        match es[0] {
            EditV::Group { id } => {
                lemma_apply_groups_char(g.insert(id), rest);
                assert(groups_after(g.insert(id), rest) =~= groups_after(g, es));
            },
            EditV::Record { .. } => {
                lemma_apply_groups_char(g, rest);
                assert(groups_after(g, rest) =~= groups_after(g, es));
            },
        }
    }
}

/// Folding record edits computes exactly `records_after`.
pub proof fn lemma_apply_records_char(m: Map<u64, (u64, Seq<u8>)>, es: Seq<EditV>)
    ensures
        apply_records(m, es) == records_after(m, es),
    decreases es.len(),
{
    if es.len() == 0 {
        assert(apply_records(m, es) =~~= records_after(m, es));
    } else {
        let rest = es.drop_first();
        match es[0] {
            EditV::Group { .. } => {
                lemma_apply_records_char(m, rest);
                assert(records_after(m, rest) =~~= records_after(m, es));
            },
            EditV::Record { id, group_id, data } => {
                let m2 = m.insert(id, (group_id, data));
                lemma_apply_records_char(m2, rest);
                assert forall|x: u64|
                    records_after(m2, rest).dom().contains(x) == records_after(
                        m,
                        es,
                    ).dom().contains(x) && (records_after(m2, rest).dom().contains(x)
                    ==> records_after(m2, rest)[x] == records_after(m, es)[x]) by {
                    if x == id {
                        if rec_lookup(rest, x) is None {
                            assert(rec_lookup(es, x) == Some((group_id, data)));
                        }
                    } else {
                        assert(rec_lookup(es, x) == rec_lookup(rest, x));
                    }
                }
                assert(records_after(m2, rest) =~~= records_after(m, es));
            },
        }
    }
}

/// Every record edit refers to a group present in `gf` (the group set
/// after the whole changeset).
pub open spec fn edits_constraint_ok(gf: Set<u64>, es: Seq<EditV>) -> bool {
    forall|i: int|
        0 <= i < es.len() ==> match #[trigger] es[i] {
            EditV::Record { group_id, .. } => gf.contains(group_id),
            _ => true,
        }
}

/// One row of the group table.
pub struct GroupRow {
    pub id: u64,
    pub seq: u64,
}

/// One row of the record table; `group_id` must refer to a group row.
pub struct RecordRow {
    pub id: u64,
    pub group_id: u64,
    pub data: Vec<u8>,
    pub seq: u64,
}

/// The change-log store: two tables of rows with sequence stamps, the next
/// stamp to hand out, and per-peer checkpoints.
pub struct ChangeLogStore {
    groups: Vec<GroupRow>,
    records: Vec<RecordRow>,
    next_seq: u64,
    checkpoints: Vec<(String, u64)>,
}

impl ChangeLogStore {
    /// The identifiers of the group rows.
    pub closed spec fn group_ids(&self) -> Set<u64> {
        Set::new(|id: u64| exists|i: int| 0 <= i < self.groups@.len() && self.groups@[i].id == id)
    }

    /// True when a record row with identifier `id` exists.
    pub closed spec fn has_record(&self, id: u64) -> bool {
        exists|i: int| 0 <= i < self.records@.len() && self.records@[i].id == id
    }

    /// The record table as a map from identifier to group and data.
    pub closed spec fn records_map(&self) -> Map<u64, (u64, Seq<u8>)> {
        rows_map(self.records@)
    }

    /// The sequence stamp up to which `peer` is known to be current;
    /// zero for a peer never synced with.
    pub closed spec fn checkpoint(&self, peer: Seq<char>) -> u64 {
        match assoc_lookup(self.checkpoints@, peer) {
            Some(c) => c,
            None => 0,
        }
    }

    /// The highest stamp handed out so far, plus one.
    pub closed spec fn seq_bound(&self) -> u64 {
        self.next_seq
    }

    /// The number of group rows.
    pub closed spec fn groups_count(&self) -> nat {
        self.groups@.len()
    }

    /// The number of record rows.
    pub closed spec fn records_count(&self) -> nat {
        self.records@.len()
    }

    /// Well-formedness: identifiers are unique per table, every record
    /// refers to an existing group, stamps lie below `next_seq` and above
    /// zero, and checkpoints have unique keys.
    pub closed spec fn wf(&self) -> bool {
        &&& forall|i: int, j: int|
            0 <= i < j < self.groups@.len() ==> self.groups@[i].id != self.groups@[j].id
        &&& forall|i: int, j: int|
            0 <= i < j < self.records@.len() ==> self.records@[i].id != self.records@[j].id
        &&& forall|i: int|
            0 <= i < self.records@.len() ==> self.group_ids().contains(
                #[trigger] self.records@[i].group_id,
            )
        &&& forall|i: int|
            0 <= i < self.groups@.len() ==> 1 <= #[trigger] self.groups@[i].seq < self.next_seq
        &&& forall|i: int|
            0 <= i < self.records@.len() ==> 1 <= #[trigger] self.records@[i].seq < self.next_seq
        &&& self.next_seq >= 1
        &&& unique_keys(self.checkpoints@)
    }

    /// An empty store.
    pub fn new() -> (r: ChangeLogStore)
        ensures
            r.wf(),
            r.group_ids() =~= Set::<u64>::empty(),
            r.records_map() =~= Map::<u64, (u64, Seq<u8>)>::empty(),
            r.seq_bound() == 1,
            forall|p: Seq<char>| r.checkpoint(p) == 0,
    {
        let r = ChangeLogStore {
            groups: Vec::new(),
            records: Vec::new(),
            next_seq: 1,
            checkpoints: Vec::new(),
        };
        proof {
            assert(r.group_ids() =~= Set::<u64>::empty());
            assert(r.records_map() =~~= Map::<u64, (u64, Seq<u8>)>::empty());
        }
        r
    }

    /// True when a group row with identifier `gid` exists.
    pub fn group_exists(&self, gid: u64) -> (r: bool)
        ensures
            r == self.group_ids().contains(gid),
    {
        let mut i: usize = 0;
        while i < self.groups.len()
            invariant
                i <= self.groups@.len(),
                forall|j: int| 0 <= j < i ==> self.groups@[j].id != gid,
            decreases self.groups@.len() - i,
        {
            if self.groups[i].id == gid {
                return true;
            }
            i = i + 1;
        }
        false
    }

    /// Finds the position of the record row with identifier `id`.
    fn find_record(&self, id: u64) -> (r: Option<usize>)
        ensures
            match r {
                Some(i) => 0 <= i < self.records@.len() && self.records@[i as int].id == id,
                None => !self.has_record(id),
            },
    {
        let mut i: usize = 0;
        while i < self.records.len()
            invariant
                i <= self.records@.len(),
                forall|j: int| 0 <= j < i ==> self.records@[j].id != id,
            decreases self.records@.len() - i,
        {
            if self.records[i].id == id {
                return Some(i);
            }
            i = i + 1;
        }
        None
    }
}

/// Appending an edit extends `has_group_edit` by exactly that edit.
pub proof fn lemma_has_group_edit_push(es: Seq<EditV>, e: EditV, x: u64)
    ensures
        has_group_edit(es.push(e), x) == (has_group_edit(es, x) || e == (EditV::Group { id: x })),
    decreases es.len(),
{
    if es.len() == 0 {
        assert(es.push(e)[0] == e);
        assert(es.push(e).drop_first() =~= es);
        assert(!has_group_edit(es, x));
        assert(has_group_edit(es.push(e), x) == (es.push(e)[0] == (EditV::Group { id: x })
            || has_group_edit(es, x)));
    } else {
        lemma_has_group_edit_push(es.drop_first(), e, x);
        assert(es.push(e)[0] == es[0]);
        assert(es.push(e).drop_first() =~= es.drop_first().push(e));
        assert(has_group_edit(es.push(e), x) == (es[0] == (EditV::Group { id: x })
            || has_group_edit(es.drop_first().push(e), x)));
        assert(has_group_edit(es, x) == (es[0] == (EditV::Group { id: x }) || has_group_edit(
            es.drop_first(),
            x,
        )));
    }
}

/// Appending an edit makes it the last record binding for its identifier.
pub proof fn lemma_rec_lookup_push(es: Seq<EditV>, e: EditV, x: u64)
    ensures
        rec_lookup(es.push(e), x) == match e {
            EditV::Record { id, group_id, data } => if id == x {
                Some((group_id, data))
            } else {
                rec_lookup(es, x)
            },
            _ => rec_lookup(es, x),
        },
    decreases es.len(),
{
    if es.len() == 0 {
        assert(es.push(e)[0] == e);
        assert(es.push(e).drop_first() =~= es);
        assert(rec_lookup(es, x) is None);
        assert(rec_lookup(es.push(e), x) == match e {
            EditV::Record { id, group_id, data } => if id == x {
                Some((group_id, data))
            } else {
                None
            },
            _ => { None },
        });
    } else {
        lemma_rec_lookup_push(es.drop_first(), e, x);
        assert(es.push(e)[0] == es[0]);
        assert(es.push(e).drop_first() =~= es.drop_first().push(e));
        let t1 = rec_lookup(es.drop_first().push(e), x);
        assert(rec_lookup(es.push(e), x) == if t1 is Some {
            t1
        } else {
            match es[0] {
                EditV::Record { id: id2, group_id, data } => if id2 == x {
                    Some((group_id, data))
                } else {
                    None
                },
                _ => { None },
            }
        });
        let t0 = rec_lookup(es.drop_first(), x);
        assert(rec_lookup(es, x) == if t0 is Some {
            t0
        } else {
            match es[0] {
                EditV::Record { id: id2, group_id, data } => if id2 == x {
                    Some((group_id, data))
                } else {
                    None
                },
                _ => { None },
            }
        });
    }
}

/// True when `edits` holds a group edit for `gid`.
fn edits_have_group(edits: &Vec<Edit>, gid: u64) -> (r: bool)
    ensures
        r == has_group_edit(edit_views(edits@), gid),
{
    let ghost evs = edit_views(edits@);
    proof {
        assert(evs.skip(0) =~= evs);
    }
    let mut i: usize = 0;
    while i < edits.len()
        invariant
            i <= edits@.len(),
            evs == edit_views(edits@),
            has_group_edit(evs, gid) == has_group_edit(evs.skip(i as int), gid),
        decreases edits@.len() - i,
    {
        proof {
            assert(evs.skip(i as int)[0] == evs[i as int]);
            assert(evs.skip(i as int).drop_first() =~= evs.skip(i as int + 1));
        }
        match &edits[i] {
            Edit::Group { id } => {
                if *id == gid {
                    proof {
                        assert(evs[i as int] == (EditV::Group { id: gid }));
                    }
                    return true;
                }
            },
            Edit::Record { .. } => {},
        }
        i = i + 1;
    }
    proof {
        assert(evs.skip(i as int).len() == 0);
    }
    false
}

impl ChangeLogStore {
    /// True exactly when every record edit refers to a group that exists in
    /// the store or is created by the changeset itself.
    fn check_constraints(&self, edits: &Vec<Edit>) -> (r: bool)
        ensures
            r == edits_constraint_ok(
                groups_after(self.group_ids(), edit_views(edits@)),
                edit_views(edits@),
            ),
    {
        let ghost evs = edit_views(edits@);
        let ghost gf = groups_after(self.group_ids(), evs);
        let mut i: usize = 0;
        while i < edits.len()
            invariant
                i <= edits@.len(),
                evs == edit_views(edits@),
                gf == groups_after(self.group_ids(), evs),
                forall|j: int|
                    0 <= j < i ==> match #[trigger] evs[j] {
                        EditV::Record { group_id, .. } => gf.contains(group_id),
                        _ => true,
                    },
            decreases edits@.len() - i,
        {
            match &edits[i] {
                Edit::Record { group_id, .. } => {
                    let gid = *group_id;
                    if !self.group_exists(gid) && !edits_have_group(edits, gid) {
                        proof {
                            assert(!gf.contains(gid));
                            assert(evs[i as int] matches EditV::Record { group_id: g2, .. }
                                && g2 == gid);
                        }
                        return false;
                    }
                },
                Edit::Group { .. } => {},
            }
            i = i + 1;
        }
        true
    }

    /// Applies a parsed changeset. The group pass runs before the record
    /// pass, so a record may refer to a group created anywhere in the same
    /// changeset.
    fn apply_edits(&mut self, edits: &Vec<Edit>)
        requires
            old(self).wf(),
            old(self).next_seq < u64::MAX,
            edits_constraint_ok(
                groups_after(old(self).group_ids(), edit_views(edits@)),
                edit_views(edits@),
            ),
        ensures
            final(self).wf(),
            final(self).group_ids() == groups_after(old(self).group_ids(), edit_views(edits@)),
            final(self).records_map() == records_after(
                old(self).records_map(),
                edit_views(edits@),
            ),
            final(self).checkpoints == old(self).checkpoints,
            final(self).next_seq == old(self).next_seq + 1,
    {
        let ghost evs = edit_views(edits@);
        let ghost old_gids = self.group_ids();
        let ghost old_recs = self.records_map();
        let stamp: u64 = self.next_seq;
        let mut i: usize = 0;
        while i < edits.len()
            invariant
                i <= edits@.len(),
                evs == edit_views(edits@),
                old_gids == old(self).group_ids(),
                self.records == old(self).records,
                self.checkpoints == old(self).checkpoints,
                self.next_seq == old(self).next_seq,
                stamp == old(self).next_seq,
                old(self).wf(),
                self.group_ids() == groups_after(old_gids, evs.take(i as int)),
                forall|a: int, b: int|
                    0 <= a < b < self.groups@.len() ==> self.groups@[a].id != self.groups@[b].id,
                forall|j: int|
                    0 <= j < self.groups@.len() ==> 1 <= #[trigger] self.groups@[j].seq <= stamp,
            decreases edits@.len() - i,
        {
            let ghost pre_ids = self.group_ids();
            let ghost pre_rows = self.groups@;
            match &edits[i] {
                Edit::Group { id } => {
                    let gid = *id;
                    proof {
                        assert(evs[i as int] == (EditV::Group { id: gid }));
                    }
                    if !self.group_exists(gid) {
                        self.groups.push(GroupRow { id: gid, seq: stamp });
                        proof {
                            assert(self.groups@ == pre_rows.push(
                                self.groups@[pre_rows.len() as int],
                            ));
                            assert forall|x: u64| self.group_ids().contains(x) == pre_ids.insert(
                                gid,
                            ).contains(x) by {
                                if x == gid {
                                    assert(self.groups@[pre_rows.len() as int].id == gid);
                                } else {
                                    if pre_ids.contains(x) {
                                        let j = choose|j: int|
                                            0 <= j < pre_rows.len() && pre_rows[j].id == x;
                                        assert(self.groups@[j].id == x);
                                    }
                                    if self.group_ids().contains(x) {
                                        let j = choose|j: int|
                                            0 <= j < self.groups@.len() && self.groups@[j].id
                                                == x;
                                        assert(j < pre_rows.len());
                                        assert(pre_rows[j].id == x);
                                    }
                                }
                            }
                            assert(self.group_ids() =~= pre_ids.insert(gid));
                            assert forall|a: int, b: int|
                                0 <= a < b < self.groups@.len() implies self.groups@[a].id
                                != self.groups@[b].id by {
                                if b < pre_rows.len() {
                                    assert(self.groups@[a].id == pre_rows[a].id
                                        && self.groups@[b].id == pre_rows[b].id);
                                } else {
                                    assert(self.groups@[a].id == pre_rows[a].id);
                                    assert(self.groups@[b].id == gid);
                                    assert(!pre_ids.contains(gid));
                                }
                            }
                        }
                    } else {
                        proof {
                            assert(pre_ids.insert(gid) =~= pre_ids);
                        }
                    }
                    proof {
                        lemma_take_push_group(old_gids, evs, i as int, gid);
                    }
                },
                Edit::Record { .. } => {
                    proof {
                        lemma_take_push_other(old_gids, evs, i as int);
                    }
                },
            }
            i = i + 1;
        }
        proof {
            assert(evs.take(evs.len() as int) =~= evs);
            assert(self.group_ids() == groups_after(old_gids, evs));
        }
        let ghost mid_groups = self.groups@;
        let mut i2: usize = 0;
        while i2 < edits.len()
            invariant
                i2 <= edits@.len(),
                evs == edit_views(edits@),
                old_gids == old(self).group_ids(),
                old_recs == old(self).records_map(),
                self.groups@ == mid_groups,
                self.checkpoints == old(self).checkpoints,
                self.next_seq == old(self).next_seq,
                stamp == old(self).next_seq,
                old(self).wf(),
                self.group_ids() == groups_after(old_gids, evs),
                edits_constraint_ok(groups_after(old_gids, evs), evs),
                forall|a: int, b: int|
                    0 <= a < b < mid_groups.len() ==> mid_groups[a].id != mid_groups[b].id,
                forall|j: int| 0 <= j < mid_groups.len() ==> 1 <= #[trigger] mid_groups[j].seq
                    <= stamp,
                self.records_map() == records_after(old_recs, evs.take(i2 as int)),
                forall|a: int, b: int|
                    0 <= a < b < self.records@.len() ==> self.records@[a].id
                        != self.records@[b].id,
                forall|j: int|
                    0 <= j < self.records@.len() ==> 1 <= #[trigger] self.records@[j].seq <= stamp,
                forall|j: int|
                    0 <= j < self.records@.len() ==> self.group_ids().contains(
                        #[trigger] self.records@[j].group_id,
                    ),
            decreases edits@.len() - i2,
        {
            let ghost pre_rows = self.records@;
            let ghost pre_map = self.records_map();
            match &edits[i2] {
                Edit::Record { id, group_id, data } => {
                    let rid = *id;
                    let gid = *group_id;
                    let row = RecordRow {
                        id: rid,
                        group_id: gid,
                        data: vstd::slice::slice_to_vec(data.as_slice()),
                        seq: stamp,
                    };
                    let ghost dv = data@;
                    proof {
                        assert(evs[i2 as int] == (EditV::Record {
                            id: rid,
                            group_id: gid,
                            data: dv,
                        }));
                        assert(groups_after(old_gids, evs).contains(gid));
                    }
                    match self.find_record(rid) {
                        Some(p) => {
                            let ghost pi = p as int;
                            self.records.remove(p);
                            self.records.insert(p, row);
                            proof {
                                assert(self.records@ =~= pre_rows.update(
                                    pi,
                                    self.records@[pi],
                                ));
                                lemma_records_map_update(pre_rows, self.records@, pi, rid, gid, dv);
                                assert(self.records_map() =~~= pre_map.insert(rid, (gid, dv)));
                            }
                        },
                        None => {
                            self.records.push(row);
                            proof {
                                lemma_records_map_push(pre_rows, self.records@, rid, gid, dv);
                                assert(self.records_map() =~~= pre_map.insert(rid, (gid, dv)));
                            }
                        },
                    }
                    proof {
                        lemma_take_push_record(old_recs, evs, i2 as int, rid, gid, dv);
                    }
                },
                Edit::Group { .. } => {
                    proof {
                        lemma_take_push_other_rec(old_recs, evs, i2 as int);
                    }
                },
            }
            i2 = i2 + 1;
        }
        self.next_seq = stamp + 1;
        proof {
            assert(evs.take(evs.len() as int) =~= evs);
        }
    }
}

/// Taking one more group edit inserts exactly its identifier.
proof fn lemma_take_push_group(g: Set<u64>, evs: Seq<EditV>, i: int, gid: u64)
    requires
        0 <= i < evs.len(),
        evs[i] == (EditV::Group { id: gid }),
    ensures
        groups_after(g, evs.take(i + 1)) == groups_after(g, evs.take(i)).insert(gid),
{
    assert(evs.take(i + 1) =~= evs.take(i).push(evs[i]));
    assert forall|x: u64|
        groups_after(g, evs.take(i + 1)).contains(x) == groups_after(g, evs.take(i)).insert(
            gid,
        ).contains(x) by {
        lemma_has_group_edit_push(evs.take(i), evs[i], x);
    }
    assert(groups_after(g, evs.take(i + 1)) =~= groups_after(g, evs.take(i)).insert(gid));
}

/// Taking one more non-group edit leaves the group set unchanged.
proof fn lemma_take_push_other(g: Set<u64>, evs: Seq<EditV>, i: int)
    requires
        0 <= i < evs.len(),
        !(evs[i] is Group),
    ensures
        groups_after(g, evs.take(i + 1)) == groups_after(g, evs.take(i)),
{
    assert(evs.take(i + 1) =~= evs.take(i).push(evs[i]));
    assert forall|x: u64|
        groups_after(g, evs.take(i + 1)).contains(x) == groups_after(g, evs.take(i)).contains(
            x,
        ) by {
        lemma_has_group_edit_push(evs.take(i), evs[i], x);
    }
    assert(groups_after(g, evs.take(i + 1)) =~= groups_after(g, evs.take(i)));
}

/// Taking one more record edit inserts exactly its binding.
proof fn lemma_take_push_record(
    m: Map<u64, (u64, Seq<u8>)>,
    evs: Seq<EditV>,
    i: int,
    rid: u64,
    gid: u64,
    dv: Seq<u8>,
)
    requires
        0 <= i < evs.len(),
        evs[i] == (EditV::Record { id: rid, group_id: gid, data: dv }),
    ensures
        records_after(m, evs.take(i + 1)) == records_after(m, evs.take(i)).insert(rid, (gid, dv)),
{
    assert(evs.take(i + 1) =~= evs.take(i).push(evs[i]));
    assert forall|x: u64|
        records_after(m, evs.take(i + 1)).dom().contains(x) == records_after(m, evs.take(i)).insert(
            rid,
            (gid, dv),
        ).dom().contains(x) && (records_after(m, evs.take(i + 1)).dom().contains(x)
        ==> records_after(m, evs.take(i + 1))[x] == records_after(m, evs.take(i)).insert(
        rid,
        (gid, dv),
    )[x]) by {
        lemma_rec_lookup_push(evs.take(i), evs[i], x);
    }
    assert_maps_equal!(
        records_after(m, evs.take(i + 1)),
        records_after(m, evs.take(i)).insert(rid, (gid, dv)),
        x => {
            lemma_rec_lookup_push(evs.take(i), evs[i], x);
        }
    );
}

/// Taking one more non-record edit leaves the record table unchanged.
proof fn lemma_take_push_other_rec(m: Map<u64, (u64, Seq<u8>)>, evs: Seq<EditV>, i: int)
    requires
        0 <= i < evs.len(),
        !(evs[i] is Record),
    ensures
        records_after(m, evs.take(i + 1)) == records_after(m, evs.take(i)),
{
    assert(evs.take(i + 1) =~= evs.take(i).push(evs[i]));
    assert forall|x: u64|
        records_after(m, evs.take(i + 1)).dom().contains(x) == records_after(
            m,
            evs.take(i),
        ).dom().contains(x) && (records_after(m, evs.take(i + 1)).dom().contains(x)
        ==> records_after(m, evs.take(i + 1))[x] == records_after(m, evs.take(i))[x]) by {
        lemma_rec_lookup_push(evs.take(i), evs[i], x);
    }
    assert_maps_equal!(
        records_after(m, evs.take(i + 1)),
        records_after(m, evs.take(i)),
        x => {
            lemma_rec_lookup_push(evs.take(i), evs[i], x);
        }
    );
}

/// The record map over rows with unique identifiers, after replacing the
/// row at `pi` (whose identifier is `rid`) with a row binding `rid` to
/// `(gid, dv)`, is the old map with that binding inserted.
proof fn lemma_records_map_update(
    pre: Seq<RecordRow>,
    post: Seq<RecordRow>,
    pi: int,
    rid: u64,
    gid: u64,
    dv: Seq<u8>,
)
    requires
        0 <= pi < pre.len(),
        post == pre.update(pi, post[pi]),
        pre[pi].id == rid,
        post[pi].id == rid,
        post[pi].group_id == gid,
        post[pi].data@ == dv,
        forall|a: int, b: int| 0 <= a < b < pre.len() ==> pre[a].id != pre[b].id,
    ensures
        rows_map(post) == rows_map(pre).insert(rid, (gid, dv)),
{
    assert forall|a: int, b: int| 0 <= a < b < post.len() implies post[a].id != post[b].id by {
        assert(pre[a].id != pre[b].id);
        assert(post[a].id == pre[a].id && post[b].id == pre[b].id);
    }
    assert_maps_equal!(
        rows_map(post),
        rows_map(pre).insert(rid, (gid, dv)),
        x => {
        if x == rid {
            assert(post[pi].id == x);
            assert(rows_map(post).dom().contains(x));
            let j = choose|j: int| 0 <= j < post.len() && post[j].id == x;
            assert(j == pi) by {
                if j < pi {
                    assert(post[j].id != post[pi].id);
                } else if pi < j {
                    assert(post[pi].id != post[j].id);
                }
            }
            assert(rows_map(post)[x] == (gid, dv));
        } else {
            if exists|j: int| 0 <= j < pre.len() && pre[j].id == x {
                let j = choose|j: int| 0 <= j < pre.len() && pre[j].id == x;
                assert(j != pi);
                assert(post[j].id == x);
                let j2 = choose|j2: int| 0 <= j2 < post.len() && post[j2].id == x;
                assert(j2 == j) by {
                    if j2 < j {
                        assert(post[j2].id != post[j].id);
                    } else if j < j2 {
                        assert(post[j].id != post[j2].id);
                    }
                }
                assert(rows_map(post)[x] == (pre[j].group_id, pre[j].data@));
                let j3 = choose|j3: int| 0 <= j3 < pre.len() && pre[j3].id == x;
                assert(j3 == j) by {
                    if j3 < j {
                        assert(pre[j3].id != pre[j].id);
                    } else if j < j3 {
                        assert(pre[j].id != pre[j3].id);
                    }
                }
            } else {
                assert forall|j: int| 0 <= j < post.len() implies post[j].id != x by {
                    assert(post[j].id == pre[j].id);
                }
            }
        }
    }
    );
}

/// The record map over rows with unique identifiers, after appending a row
/// with a fresh identifier, is the old map with that binding inserted.
proof fn lemma_records_map_push(
    pre: Seq<RecordRow>,
    post: Seq<RecordRow>,
    rid: u64,
    gid: u64,
    dv: Seq<u8>,
)
    requires
        post == pre.push(post[pre.len() as int]),
        post[pre.len() as int].id == rid,
        post[pre.len() as int].group_id == gid,
        post[pre.len() as int].data@ == dv,
        forall|j: int| 0 <= j < pre.len() ==> pre[j].id != rid,
        forall|a: int, b: int| 0 <= a < b < pre.len() ==> pre[a].id != pre[b].id,
    ensures
        rows_map(post) == rows_map(pre).insert(rid, (gid, dv)),
{
    assert forall|a: int, b: int| 0 <= a < b < post.len() implies post[a].id != post[b].id by {
        if b < pre.len() {
            assert(post[a].id == pre[a].id && post[b].id == pre[b].id);
        } else {
            assert(post[a].id == pre[a].id && post[b].id == rid);
        }
    }
    assert_maps_equal!(
        rows_map(post),
        rows_map(pre).insert(rid, (gid, dv)),
        x => {
        if x == rid {
            assert(post[pre.len() as int].id == x);
            let j = choose|j: int| 0 <= j < post.len() && post[j].id == x;
            assert(j == pre.len()) by {
                if j != pre.len() {
                    assert(j < pre.len());
                    assert(post[j].id == pre[j].id);
                }
            }
        } else {
            if exists|j: int| 0 <= j < pre.len() && pre[j].id == x {
                let j = choose|j: int| 0 <= j < pre.len() && pre[j].id == x;
                assert(post[j].id == x);
                let j2 = choose|j2: int| 0 <= j2 < post.len() && post[j2].id == x;
                assert(j2 == j) by {
                    if j2 < j {
                        assert(post[j2].id != post[j].id);
                    } else if j < j2 {
                        assert(post[j].id != post[j2].id);
                    }
                }
                let j3 = choose|j3: int| 0 <= j3 < pre.len() && pre[j3].id == x;
                assert(j3 == j) by {
                    if j3 < j {
                        assert(pre[j3].id != pre[j].id);
                    } else if j < j3 {
                        assert(pre[j].id != pre[j3].id);
                    }
                }
            } else {
                assert forall|j: int| 0 <= j < post.len() implies post[j].id != x by {
                    if j < pre.len() {
                        assert(post[j].id == pre[j].id);
                    }
                }
            }
        }
    }
    );
}

/// The edits exporting every group row stamped after `cp`, in table order.
pub open spec fn export_group_edits(rows: Seq<GroupRow>, cp: u64) -> Seq<EditV>
    decreases rows.len(),
{
    if rows.len() == 0 {
        Seq::empty()
    } else {
        let rest = export_group_edits(rows.drop_first(), cp);
        if rows[0].seq > cp {
            seq![EditV::Group { id: rows[0].id }] + rest
        } else {
            rest
        }
    }
}

/// The edits exporting every record row stamped after `cp`, in table order.
pub open spec fn export_record_edits(rows: Seq<RecordRow>, cp: u64) -> Seq<EditV>
    decreases rows.len(),
{
    if rows.len() == 0 {
        Seq::empty()
    } else {
        let rest = export_record_edits(rows.drop_first(), cp);
        if rows[0].seq > cp {
            seq![
                EditV::Record {
                    id: rows[0].id,
                    group_id: rows[0].group_id,
                    data: rows[0].data@,
                },
            ] + rest
        } else {
            rest
        }
    }
}

impl ChangeLogStore {
    /// The changeset content pending at checkpoint `cp`: every group row
    /// stamped after `cp`, then every record row stamped after it.
    pub closed spec fn export_edits(&self, cp: u64) -> Seq<EditV> {
        export_group_edits(self.groups@, cp) + export_record_edits(self.records@, cp)
    }

    /// Applies an incoming changeset atomically: on any error the store is
    /// left exactly as it was. Unparsable bytes are refused as unreadable;
    /// a record edit whose group neither exists nor is created by the same
    /// changeset is refused as a constraint violation. An incoming record
    /// always replaces the local record with the same identifier, whichever
    /// is newer (last delivered wins). Checkpoints are not moved.
    pub fn apply_incoming_changes(&mut self, data: &[u8], peer_id: &str) -> (r: Result<
        (),
        MergeError,
    >)
        requires
            old(self).wf(),
            old(self).seq_bound() < u64::MAX,
        ensures
            final(self).wf(),
            match r {
                Ok(_) => {
                    &&& parse_changeset(data@) is Some
                    &&& edits_constraint_ok(
                        groups_after(old(self).group_ids(), parse_changeset(data@)->Some_0),
                        parse_changeset(data@)->Some_0,
                    )
                    &&& final(self).group_ids() == groups_after(
                        old(self).group_ids(),
                        parse_changeset(data@)->Some_0,
                    )
                    &&& final(self).records_map() == records_after(
                        old(self).records_map(),
                        parse_changeset(data@)->Some_0,
                    )
                    &&& forall|p: Seq<char>|
                        final(self).checkpoint(p) == old(self).checkpoint(p)
                    &&& final(self).seq_bound() == old(self).seq_bound() + 1
                },
                Err(e) => {
                    &&& *final(self) == *old(self)
                    &&& (e == MergeError::UnreadableChangeset <==> parse_changeset(data@) is None)
                    &&& (e == MergeError::ConstraintViolation <==> parse_changeset(data@) is Some
                        && !edits_constraint_ok(
                        groups_after(old(self).group_ids(), parse_changeset(data@)->Some_0),
                        parse_changeset(data@)->Some_0,
                    ))
                },
            },
    {
        let _ = peer_id;
        match parse_changeset_bytes(data) {
            None => Err(MergeError::UnreadableChangeset),
            Some(edits) => {
                if !self.check_constraints(&edits) {
                    return Err(MergeError::ConstraintViolation);
                }
                self.apply_edits(&edits);
                Ok(())
            },
        }
    }

    /// Creates the group row `id` when it is absent; an existing row is
    /// kept.
    pub fn put_group(&mut self, id: u64)
        requires
            old(self).wf(),
            old(self).seq_bound() < u64::MAX,
        ensures
            final(self).wf(),
            final(self).group_ids() == old(self).group_ids().insert(id),
            final(self).records_map() == old(self).records_map(),
            forall|p: Seq<char>| final(self).checkpoint(p) == old(self).checkpoint(p),
    {
        let ghost pre_ids = self.group_ids();
        let ghost pre_rows = self.groups@;
        if !self.group_exists(id) {
            let stamp: u64 = self.next_seq;
            self.groups.push(GroupRow { id, seq: stamp });
            self.next_seq = stamp + 1;
            proof {
                assert(self.groups@ == pre_rows.push(self.groups@[pre_rows.len() as int]));
                assert forall|x: u64| self.group_ids().contains(x) == pre_ids.insert(id).contains(
                    x,
                ) by {
                    if x == id {
                        assert(self.groups@[pre_rows.len() as int].id == id);
                    } else {
                        if pre_ids.contains(x) {
                            let j = choose|j: int| 0 <= j < pre_rows.len() && pre_rows[j].id == x;
                            assert(self.groups@[j].id == x);
                        }
                        if self.group_ids().contains(x) {
                            let j = choose|j: int|
                                0 <= j < self.groups@.len() && self.groups@[j].id == x;
                            assert(j < pre_rows.len());
                            assert(pre_rows[j].id == x);
                        }
                    }
                }
                assert(self.group_ids() =~= pre_ids.insert(id));
                assert forall|a: int, b: int|
                    0 <= a < b < self.groups@.len() implies self.groups@[a].id
                    != self.groups@[b].id by {
                    if b < pre_rows.len() {
                        assert(self.groups@[a].id == pre_rows[a].id && self.groups@[b].id
                            == pre_rows[b].id);
                    } else {
                        assert(self.groups@[a].id == pre_rows[a].id);
                        assert(self.groups@[b].id == id);
                        assert(!pre_ids.contains(id));
                    }
                }
                assert forall|k: int|
                    0 <= k < self.records@.len() implies self.group_ids().contains(
                    #[trigger] self.records@[k].group_id,
                ) by {
                    assert(pre_ids.contains(self.records@[k].group_id));
                }
            }
        } else {
            proof {
                assert(pre_ids.insert(id) =~= pre_ids);
            }
        }
    }

    /// Inserts or replaces the record row `id`; refused, with the store
    /// unchanged, when `group_id` refers to no existing group.
    pub fn put_record(&mut self, id: u64, group_id: u64, data: Vec<u8>) -> (r: Result<
        (),
        MergeError,
    >)
        requires
            old(self).wf(),
            old(self).seq_bound() < u64::MAX,
        ensures
            final(self).wf(),
            r is Ok <==> old(self).group_ids().contains(group_id),
            r is Err ==> *final(self) == *old(self) && r == Err::<(), MergeError>(
                MergeError::ConstraintViolation,
            ),
            r is Ok ==> {
                &&& final(self).group_ids() == old(self).group_ids()
                &&& final(self).records_map() == old(self).records_map().insert(
                    id,
                    (group_id, data@),
                )
                &&& forall|p: Seq<char>| final(self).checkpoint(p) == old(self).checkpoint(p)
            },
    {
        if !self.group_exists(group_id) {
            return Err(MergeError::ConstraintViolation);
        }
        let stamp: u64 = self.next_seq;
        let ghost dv = data@;
        let row = RecordRow { id, group_id, data, seq: stamp };
        let ghost pre_rows = self.records@;
        let ghost pre_map = self.records_map();
        match self.find_record(id) {
            Some(p) => {
                let ghost pi = p as int;
                self.records.remove(p);
                self.records.insert(p, row);
                proof {
                    assert(self.records@ =~= pre_rows.update(pi, self.records@[pi]));
                    lemma_records_map_update(pre_rows, self.records@, pi, id, group_id, dv);
                    assert forall|a: int, b: int|
                        0 <= a < b < self.records@.len() implies self.records@[a].id
                        != self.records@[b].id by {
                        assert(pre_rows[a].id != pre_rows[b].id);
                        assert(self.records@[a].id == pre_rows[a].id && self.records@[b].id
                            == pre_rows[b].id);
                    }
                }
            },
            None => {
                self.records.push(row);
                proof {
                    lemma_records_map_push(pre_rows, self.records@, id, group_id, dv);
                    assert forall|a: int, b: int|
                        0 <= a < b < self.records@.len() implies self.records@[a].id
                        != self.records@[b].id by {
                        if b < pre_rows.len() {
                            assert(self.records@[a].id == pre_rows[a].id && self.records@[b].id
                                == pre_rows[b].id);
                        } else {
                            assert(self.records@[a].id == pre_rows[a].id);
                            assert(self.records@[b].id == id);
                        }
                    }
                }
            },
        }
        self.next_seq = stamp + 1;
        Ok(())
    }

    /// The checkpoint recorded for a peer; zero when none is recorded.
    pub fn get_checkpoint(&self, peer_id: &str) -> (r: u64)
        ensures
            r == self.checkpoint(peer_id@),
    {
        match assoc_find(&self.checkpoints, peer_id) {
            Some(i) => self.checkpoints[i].1,
            None => 0,
        }
    }

    /// Records that `peer_id` is current up to stamp `seq`.
    pub fn set_checkpoint(&mut self, peer_id: &str, seq: u64)
        requires
            old(self).wf(),
        ensures
            final(self).wf(),
            final(self).checkpoint(peer_id@) == seq,
            forall|p: Seq<char>|
                p != peer_id@ ==> final(self).checkpoint(p) == old(self).checkpoint(p),
            final(self).group_ids() == old(self).group_ids(),
            final(self).records_map() == old(self).records_map(),
            final(self).seq_bound() == old(self).seq_bound(),
            forall|c: u64| final(self).export_edits(c) == old(self).export_edits(c),
    {
        assoc_set(&mut self.checkpoints, peer_id, seq);
    }

    /// The next sequence stamp to be handed out; every row is stamped
    /// strictly below it.
    pub fn current_seq(&self) -> (r: u64)
        ensures
            r == self.seq_bound(),
            self.wf() ==> r >= 1,
    {
        self.next_seq
    }

    /// The number of group rows.
    pub fn group_count(&self) -> (r: usize)
        ensures
            r == self.groups_count(),
    {
        self.groups.len()
    }

    /// The number of record rows.
    pub fn record_count(&self) -> (r: usize)
        ensures
            r == self.records_count(),
    {
        self.records.len()
    }

    /// Reads the group and data of record `id`, if present.
    pub fn get_record(&self, id: u64) -> (r: Option<(u64, Vec<u8>)>)
        requires
            self.wf(),
        ensures
            match r {
                Some(v) => self.records_map().dom().contains(id) && self.records_map()[id] == (
                v.0,
                v.1@,
                ),
                None => !self.records_map().dom().contains(id),
            },
    {
        match self.find_record(id) {
            Some(i) => {
                let g: u64 = self.records[i].group_id;
                let d: Vec<u8> = vstd::slice::slice_to_vec(self.records[i].data.as_slice());
                proof {
                    let ii = i as int;
                    assert(self.records@[ii].id == id);
                    let j = choose|j: int|
                        0 <= j < self.records@.len() && self.records@[j].id == id;
                    assert(j == ii) by {
                        if j < ii {
                            assert(self.records@[j].id != self.records@[ii].id);
                        } else if ii < j {
                            assert(self.records@[ii].id != self.records@[j].id);
                        }
                    }
                }
                Some((g, d))
            },
            None => None,
        }
    }

    /// Encodes the changes a peer has not seen: every row stamped after
    /// the peer's checkpoint, groups before records.
    pub fn pending_changes_for_peer(&self, peer_id: &str) -> (r: Vec<u8>)
        requires
            self.wf(),
        ensures
            r@ == enc_changeset(self.export_edits(self.checkpoint(peer_id@))),
    {
        let cp: u64 = self.get_checkpoint(peer_id);
        let ghost gall = export_group_edits(self.groups@, cp);
        let ghost rall = export_record_edits(self.records@, cp);
        let mut edits: Vec<Edit> = Vec::new();
        proof {
            assert(self.groups@.skip(0) =~= self.groups@);
            assert(edit_views(edits@) =~= Seq::<EditV>::empty());
            assert(edit_views(edits@) + gall =~= gall);
        }
        let mut i: usize = 0;
        while i < self.groups.len()
            invariant
                i <= self.groups@.len(),
                cp == self.checkpoint(peer_id@),
                gall == export_group_edits(self.groups@, cp),
                edit_views(edits@) + export_group_edits(self.groups@.skip(i as int), cp) == gall,
            decreases self.groups@.len() - i,
        {
            let ghost tail = self.groups@.skip(i as int);
            let ghost accv = edit_views(edits@);
            proof {
                assert(tail[0] == self.groups@[i as int]);
                assert(tail.drop_first() =~= self.groups@.skip(i as int + 1));
            }
            if self.groups[i].seq > cp {
                let gid: u64 = self.groups[i].id;
                edits.push(Edit::Group { id: gid });
                proof {
                    assert(edit_views(edits@) =~= accv.push(EditV::Group { id: gid }));
                    assert(export_group_edits(tail, cp) == seq![EditV::Group { id: gid }]
                        + export_group_edits(tail.drop_first(), cp));
                    assert(accv.push(EditV::Group { id: gid }) + export_group_edits(
                        tail.drop_first(),
                        cp,
                    ) =~= accv + export_group_edits(tail, cp));
                }
            }
            i = i + 1;
        }
        proof {
            assert(self.groups@.skip(self.groups@.len() as int).len() == 0);
            assert(edit_views(edits@) + Seq::<EditV>::empty() =~= edit_views(edits@));
            assert(edit_views(edits@) == gall);
            assert(self.records@.skip(0) =~= self.records@);
        }
        let mut j: usize = 0;
        while j < self.records.len()
            invariant
                j <= self.records@.len(),
                cp == self.checkpoint(peer_id@),
                gall == export_group_edits(self.groups@, cp),
                rall == export_record_edits(self.records@, cp),
                edit_views(edits@) + export_record_edits(self.records@.skip(j as int), cp) == gall
                    + rall,
            decreases self.records@.len() - j,
        {
            let ghost tail = self.records@.skip(j as int);
            let ghost accv = edit_views(edits@);
            proof {
                assert(tail[0] == self.records@[j as int]);
                assert(tail.drop_first() =~= self.records@.skip(j as int + 1));
            }
            if self.records[j].seq > cp {
                let rid: u64 = self.records[j].id;
                let gid: u64 = self.records[j].group_id;
                let d: Vec<u8> = vstd::slice::slice_to_vec(self.records[j].data.as_slice());
                let ghost dv = d@;
                edits.push(Edit::Record { id: rid, group_id: gid, data: d });
                proof {
                    let ev = EditV::Record { id: rid, group_id: gid, data: dv };
                    assert(edit_views(edits@) =~= accv.push(ev));
                    assert(export_record_edits(tail, cp) == seq![ev] + export_record_edits(
                        tail.drop_first(),
                        cp,
                    ));
                    assert(accv.push(ev) + export_record_edits(tail.drop_first(), cp) =~= accv
                        + export_record_edits(tail, cp));
                }
            }
            j = j + 1;
        }
        proof {
            assert(self.records@.skip(self.records@.len() as int).len() == 0);
            assert(edit_views(edits@) + Seq::<EditV>::empty() =~= edit_views(edits@));
            assert(edit_views(edits@) == self.export_edits(cp));
        }
        encode_changeset(&edits)
    }
}

/// The record table of a row sequence as a map, the counterpart of
/// `ChangeLogStore::records_map` stated over raw rows.
pub open spec fn rows_map(rows: Seq<RecordRow>) -> Map<u64, (u64, Seq<u8>)> {
    Map::new(
        |id: u64| exists|i: int| 0 <= i < rows.len() && rows[i].id == id,
        |id: u64|
            {
                let i = choose|i: int| 0 <= i < rows.len() && rows[i].id == id;
                (rows[i].group_id, rows[i].data@)
            },
    )
}

/// `has_group_edit` distributes over concatenation.
proof fn lemma_hge_concat(a: Seq<EditV>, b: Seq<EditV>, x: u64)
    ensures
        has_group_edit(a + b, x) == (has_group_edit(a, x) || has_group_edit(b, x)),
    decreases a.len(),
{
    if a.len() == 0 {
        assert(a + b =~= b);
    } else {
        lemma_hge_concat(a.drop_first(), b, x);
        assert((a + b)[0] == a[0]);
        assert((a + b).drop_first() =~= a.drop_first() + b);
    }
}

/// The last record binding in a concatenation: the right part wins.
proof fn lemma_rec_lookup_concat(a: Seq<EditV>, b: Seq<EditV>, x: u64)
    ensures
        rec_lookup(a + b, x) == if rec_lookup(b, x) is Some {
            rec_lookup(b, x)
        } else {
            rec_lookup(a, x)
        },
    decreases a.len(),
{
    if a.len() == 0 {
        assert(a + b =~= b);
    } else {
        lemma_rec_lookup_concat(a.drop_first(), b, x);
        assert((a + b)[0] == a[0]);
        assert((a + b).drop_first() =~= a.drop_first() + b);
    }
}

/// A group export holds exactly the identifiers of rows past the
/// checkpoint, consists of group edits only, and binds no record.
proof fn lemma_export_groups_props(rows: Seq<GroupRow>, cp: u64, x: u64)
    ensures
        has_group_edit(export_group_edits(rows, cp), x) == exists|k: int|
            0 <= k < rows.len() && rows[k].id == x && rows[k].seq > cp,
        rec_lookup(export_group_edits(rows, cp), x) is None,
        forall|i: int|
            0 <= i < export_group_edits(rows, cp).len() ==> #[trigger] export_group_edits(
                rows,
                cp,
            )[i] is Group,
    decreases rows.len(),
{
    if rows.len() == 0 {
    } else {
        lemma_export_groups_props(rows.drop_first(), cp, x);
        let rest = export_group_edits(rows.drop_first(), cp);
        if rows[0].seq > cp {
            let e = EditV::Group { id: rows[0].id };
            assert(export_group_edits(rows, cp) == seq![e] + rest);
            assert((seq![e] + rest)[0] == e);
            assert((seq![e] + rest).drop_first() =~= rest);
            if has_group_edit(export_group_edits(rows, cp), x) {
                if e == (EditV::Group { id: x }) {
                    assert(rows[0].id == x && rows[0].seq > cp);
                } else {
                    let k = choose|k: int|
                        0 <= k < rows.drop_first().len() && rows.drop_first()[k].id == x
                            && rows.drop_first()[k].seq > cp;
                    assert(rows[k + 1].id == x && rows[k + 1].seq > cp);
                }
            }
            if exists|k: int| 0 <= k < rows.len() && rows[k].id == x && rows[k].seq > cp {
                let k = choose|k: int|
                    0 <= k < rows.len() && rows[k].id == x && rows[k].seq > cp;
                if k == 0 {
                    assert(e == (EditV::Group { id: x }));
                } else {
                    assert(rows.drop_first()[k - 1].id == x && rows.drop_first()[k - 1].seq > cp);
                }
            }
            assert forall|i: int|
                0 <= i < export_group_edits(rows, cp).len() implies #[trigger] export_group_edits(
                rows,
                cp,
            )[i] is Group by {
                if i > 0 {
                    assert(export_group_edits(rows, cp)[i] == rest[i - 1]);
                }
            }
        } else {
            assert(export_group_edits(rows, cp) == rest);
            if exists|k: int| 0 <= k < rows.len() && rows[k].id == x && rows[k].seq > cp {
                let k = choose|k: int|
                    0 <= k < rows.len() && rows[k].id == x && rows[k].seq > cp;
                assert(k > 0);
                assert(rows.drop_first()[k - 1].id == x && rows.drop_first()[k - 1].seq > cp);
            }
            if exists|k: int|
                0 <= k < rows.drop_first().len() && rows.drop_first()[k].id == x
                    && rows.drop_first()[k].seq > cp {
                let k = choose|k: int|
                    0 <= k < rows.drop_first().len() && rows.drop_first()[k].id == x
                        && rows.drop_first()[k].seq > cp;
                assert(rows[k + 1].id == x && rows[k + 1].seq > cp);
            }
        }
    }
}

/// A record export creates no group and binds exactly the rows past the
/// checkpoint; with unique identifiers the binding is the row's.
proof fn lemma_export_records_props(rows: Seq<RecordRow>, cp: u64, x: u64)
    requires
        forall|a: int, b: int| 0 <= a < b < rows.len() ==> rows[a].id != rows[b].id,
    ensures
        !has_group_edit(export_record_edits(rows, cp), x),
        (rec_lookup(export_record_edits(rows, cp), x) is Some) == exists|k: int|
            0 <= k < rows.len() && rows[k].id == x && rows[k].seq > cp,
        rec_lookup(export_record_edits(rows, cp), x) matches Some(v) ==> exists|k: int|
            0 <= k < rows.len() && rows[k].id == x && rows[k].seq > cp && v == (
            rows[k].group_id,
            rows[k].data@,
            ),
    decreases rows.len(),
{
    if rows.len() == 0 {
    } else {
        assert forall|a: int, b: int|
            0 <= a < b < rows.drop_first().len() implies rows.drop_first()[a].id
            != rows.drop_first()[b].id by {
            assert(rows.drop_first()[a] == rows[a + 1] && rows.drop_first()[b] == rows[b + 1]);
        }
        lemma_export_records_props(rows.drop_first(), cp, x);
        let rest = export_record_edits(rows.drop_first(), cp);
        let dropped = rows.drop_first();
        if rows[0].seq > cp {
            let e = EditV::Record {
                id: rows[0].id,
                group_id: rows[0].group_id,
                data: rows[0].data@,
            };
            assert(export_record_edits(rows, cp) == seq![e] + rest);
            assert((seq![e] + rest)[0] == e);
            assert((seq![e] + rest).drop_first() =~= rest);
            if exists|k: int| 0 <= k < rows.len() && rows[k].id == x && rows[k].seq > cp {
                let k = choose|k: int|
                    0 <= k < rows.len() && rows[k].id == x && rows[k].seq > cp;
                if k > 0 {
                    assert(dropped[k - 1].id == x && dropped[k - 1].seq > cp);
                }
            }
            if exists|k: int| 0 <= k < dropped.len() && dropped[k].id == x && dropped[k].seq
                > cp {
                let k = choose|k: int|
                    0 <= k < dropped.len() && dropped[k].id == x && dropped[k].seq > cp;
                assert(rows[k + 1].id == x && rows[k + 1].seq > cp);
            }
            if rec_lookup(rest, x) is Some {
            } else if rows[0].id == x {
                assert(rec_lookup(export_record_edits(rows, cp), x) == Some(
                    (rows[0].group_id, rows[0].data@),
                ));
            }
        } else {
            assert(export_record_edits(rows, cp) == rest);
            if exists|k: int| 0 <= k < rows.len() && rows[k].id == x && rows[k].seq > cp {
                let k = choose|k: int|
                    0 <= k < rows.len() && rows[k].id == x && rows[k].seq > cp;
                assert(k > 0);
                assert(dropped[k - 1].id == x && dropped[k - 1].seq > cp);
            }
            if exists|k: int| 0 <= k < dropped.len() && dropped[k].id == x && dropped[k].seq
                > cp {
                let k = choose|k: int|
                    0 <= k < dropped.len() && dropped[k].id == x && dropped[k].seq > cp;
                assert(rows[k + 1].id == x && rows[k + 1].seq > cp);
            }
        }
    }
}

/// The constraint check distributes over concatenation.
proof fn lemma_constraint_concat(gf: Set<u64>, a: Seq<EditV>, b: Seq<EditV>)
    ensures
        edits_constraint_ok(gf, a + b) == (edits_constraint_ok(gf, a) && edits_constraint_ok(
            gf,
            b,
        )),
{
    if edits_constraint_ok(gf, a + b) {
        assert forall|i: int|
            0 <= i < a.len() implies match #[trigger] a[i] {
            EditV::Record { group_id, .. } => gf.contains(group_id),
            _ => true,
        } by {
            assert((a + b)[i] == a[i]);
        }
        assert forall|i: int|
            0 <= i < b.len() implies match #[trigger] b[i] {
            EditV::Record { group_id, .. } => gf.contains(group_id),
            _ => true,
        } by {
            assert((a + b)[a.len() + i] == b[i]);
        }
    }
    if edits_constraint_ok(gf, a) && edits_constraint_ok(gf, b) {
        assert forall|i: int|
            0 <= i < (a + b).len() implies match #[trigger] (a + b)[i] {
            EditV::Record { group_id, .. } => gf.contains(group_id),
            _ => true,
        } by {
            if i < a.len() {
                assert((a + b)[i] == a[i]);
            } else {
                assert((a + b)[i] == b[i - a.len()]);
            }
        }
    }
}

/// Every record edit of a record export refers to its row's group.
proof fn lemma_export_records_constraint(rows: Seq<RecordRow>, cp: u64, gf: Set<u64>)
    requires
        forall|k: int| 0 <= k < rows.len() ==> gf.contains(#[trigger] rows[k].group_id),
    ensures
        edits_constraint_ok(gf, export_record_edits(rows, cp)),
    decreases rows.len(),
{
    if rows.len() == 0 {
    } else {
        assert forall|k: int|
            0 <= k < rows.drop_first().len() implies gf.contains(
            #[trigger] rows.drop_first()[k].group_id,
        ) by {
            assert(rows.drop_first()[k] == rows[k + 1]);
        }
        lemma_export_records_constraint(rows.drop_first(), cp, gf);
        let rest = export_record_edits(rows.drop_first(), cp);
        if rows[0].seq > cp {
            let e = EditV::Record {
                id: rows[0].id,
                group_id: rows[0].group_id,
                data: rows[0].data@,
            };
            assert(gf.contains(rows[0].group_id));
            assert forall|i: int|
                0 <= i < export_record_edits(rows, cp).len() implies match #[trigger] export_record_edits(
                rows,
                cp,
            )[i] {
                EditV::Record { group_id, .. } => gf.contains(group_id),
                _ => true,
            } by {
                assert(export_record_edits(rows, cp) == seq![e] + rest);
                if i == 0 {
                    assert(export_record_edits(rows, cp)[0] == e);
                } else {
                    assert(export_record_edits(rows, cp)[i] == rest[i - 1]);
                }
            }
        }
    }
}

/// Round trip: the changeset pending for a peer that has seen nothing,
/// applied to an empty replica, reproduces the source store's content
/// exactly. Together with the contract of `apply_incoming_changes` on an
/// empty store, the application succeeds and the replica's group set and
/// record table equal the source's.
pub proof fn lemma_round_trip_to_empty_replica(
    src: &ChangeLogStore,
    replica: &ChangeLogStore,
    peer: Seq<char>,
)
    requires
        src.wf(),
        src.checkpoint(peer) == 0,
        src.groups_count() + src.records_count() <= u64::MAX,
        replica.group_ids() == Set::<u64>::empty(),
        replica.records_map() == Map::<u64, (u64, Seq<u8>)>::empty(),
    ensures
        ({
            let es = src.export_edits(src.checkpoint(peer));
            &&& parse_changeset(enc_changeset(es)) == Some(es)
            &&& edits_constraint_ok(groups_after(replica.group_ids(), es), es)
            &&& groups_after(replica.group_ids(), es) == src.group_ids()
            &&& records_after(replica.records_map(), es) == src.records_map()
        }),
{
    let cp = src.checkpoint(peer);
    let gpart = export_group_edits(src.groups@, cp);
    let rpart = export_record_edits(src.records@, cp);
    let es = src.export_edits(cp);
    assert(es == gpart + rpart);
    lemma_export_len(src.groups@, cp);
    lemma_export_rec_len(src.records@, cp);
    assert(edits_ok(es)) by {
        assert(es.len() <= src.groups@.len() + src.records@.len());
        lemma_export_records_ok(src.records@, cp);
        assert forall|i: int| 0 <= i < es.len() implies edit_ok(#[trigger] es[i]) by {
            if i < gpart.len() {
                assert(es[i] == gpart[i]);
                lemma_export_groups_props(src.groups@, cp, 0);
            } else {
                assert(es[i] == rpart[i - gpart.len()]);
            }
        }
    }
    lemma_parse_enc_changeset(es);
    assert forall|x: u64|
        groups_after(replica.group_ids(), es).contains(x) == src.group_ids().contains(x) by {
        lemma_hge_concat(gpart, rpart, x);
        lemma_export_groups_props(src.groups@, cp, x);
        lemma_export_records_props(src.records@, cp, x);
    }
    assert(groups_after(replica.group_ids(), es) =~= src.group_ids());
    assert(edits_constraint_ok(groups_after(replica.group_ids(), es), es)) by {
        lemma_constraint_concat(groups_after(replica.group_ids(), es), gpart, rpart);
        assert(edits_constraint_ok(groups_after(replica.group_ids(), es), gpart)) by {
            assert forall|i: int|
                0 <= i < gpart.len() implies match #[trigger] gpart[i] {
                EditV::Record { group_id, .. } => groups_after(
                    replica.group_ids(),
                    es,
                ).contains(group_id),
                _ => true,
            } by {
                lemma_export_groups_props(src.groups@, cp, 0);
            }
        }
        lemma_export_records_constraint(src.records@, cp, groups_after(replica.group_ids(), es));
    }
    assert_maps_equal!(
        records_after(replica.records_map(), es),
        src.records_map(),
        x => {
            lemma_rec_lookup_concat(gpart, rpart, x);
            lemma_export_groups_props(src.groups@, cp, x);
            lemma_export_records_props(src.records@, cp, x);
            if rec_lookup(es, x) is Some {
                let v = rec_lookup(es, x)->Some_0;
                let k = choose|k: int|
                    0 <= k < src.records@.len() && src.records@[k].id == x
                        && src.records@[k].seq > cp && v == (
                    src.records@[k].group_id,
                    src.records@[k].data@,
                    );
                assert(src.records_map().dom().contains(x));
                let j = choose|j: int|
                    0 <= j < src.records@.len() && src.records@[j].id == x;
                assert(j == k) by {
                    if j < k {
                        assert(src.records@[j].id != src.records@[k].id);
                    } else if k < j {
                        assert(src.records@[k].id != src.records@[j].id);
                    }
                }
            }
            if src.records_map().dom().contains(x) {
                let j = choose|j: int|
                    0 <= j < src.records@.len() && src.records@[j].id == x;
                assert(src.records@[j].seq > cp);
            }
        }
    );
}

/// A group export is at most one edit per row.
proof fn lemma_export_len(rows: Seq<GroupRow>, cp: u64)
    ensures
        export_group_edits(rows, cp).len() <= rows.len(),
    decreases rows.len(),
{
    if rows.len() > 0 {
        lemma_export_len(rows.drop_first(), cp);
    }
}

/// A record export is at most one edit per row.
proof fn lemma_export_rec_len(rows: Seq<RecordRow>, cp: u64)
    ensures
        export_record_edits(rows, cp).len() <= rows.len(),
    decreases rows.len(),
{
    if rows.len() > 0 {
        lemma_export_rec_len(rows.drop_first(), cp);
    }
}

/// Every edit of a record export is well formed: its data comes from a row
/// vector, so its length fits the wire format's length prefix.
proof fn lemma_export_records_ok(rows: Seq<RecordRow>, cp: u64)
    ensures
        forall|i: int|
            0 <= i < export_record_edits(rows, cp).len() ==> edit_ok(
                #[trigger] export_record_edits(rows, cp)[i],
            ),
    decreases rows.len(),
{
    broadcast use vstd::std_specs::vec::axiom_spec_len;

    if rows.len() > 0 {
        lemma_export_records_ok(rows.drop_first(), cp);
        let rest = export_record_edits(rows.drop_first(), cp);
        if rows[0].seq > cp {
            let e = EditV::Record {
                id: rows[0].id,
                group_id: rows[0].group_id,
                data: rows[0].data@,
            };
            assert(rows[0].data@.len() <= usize::MAX) by {
                assert(vstd::std_specs::vec::spec_vec_len(&rows[0].data) == rows[0].data@.len());
            }
            assert forall|i: int|
                0 <= i < export_record_edits(rows, cp).len() implies edit_ok(
                #[trigger] export_record_edits(rows, cp)[i],
            ) by {
                assert(export_record_edits(rows, cp) == seq![e] + rest);
                if i == 0 {
                    assert(export_record_edits(rows, cp)[0] == e);
                } else {
                    assert(export_record_edits(rows, cp)[i] == rest[i - 1]);
                }
            }
        }
    }
}

/// A constraint that holds against a group set holds against any larger
/// one.
pub proof fn lemma_constraint_monotone(g1: Set<u64>, g2: Set<u64>, es: Seq<EditV>)
    requires
        edits_constraint_ok(g1, es),
        forall|x: u64| g1.contains(x) ==> g2.contains(x),
    ensures
        edits_constraint_ok(g2, es),
{
    assert forall|i: int|
        0 <= i < es.len() implies match #[trigger] es[i] {
        EditV::Record { group_id, .. } => g2.contains(group_id),
        _ => true,
    } by {
        match es[i] {
            EditV::Record { group_id, .. } => {
                assert(g1.contains(group_id));
            },
            _ => {},
        }
    }
}

/// Concurrent disjoint sessions: two changesets that touch disjoint record
/// identifiers both pass the referential check in either order, and the
/// store contents after applying both are the same whichever ran first —
/// the union of both sets of changes.
pub proof fn lemma_disjoint_changesets_commute(
    g: Set<u64>,
    m: Map<u64, (u64, Seq<u8>)>,
    es1: Seq<EditV>,
    es2: Seq<EditV>,
)
    requires
        edits_constraint_ok(groups_after(g, es1), es1),
        edits_constraint_ok(groups_after(g, es2), es2),
        forall|x: u64| !(rec_lookup(es1, x) is Some && rec_lookup(es2, x) is Some),
    ensures
        edits_constraint_ok(groups_after(groups_after(g, es1), es2), es2),
        edits_constraint_ok(groups_after(groups_after(g, es2), es1), es1),
        groups_after(groups_after(g, es1), es2) == groups_after(groups_after(g, es2), es1),
        records_after(records_after(m, es1), es2) == records_after(records_after(m, es2), es1),
{
    lemma_constraint_monotone(groups_after(g, es2), groups_after(groups_after(g, es1), es2), es2);
    lemma_constraint_monotone(groups_after(g, es1), groups_after(groups_after(g, es2), es1), es1);
    assert(groups_after(groups_after(g, es1), es2) =~= groups_after(groups_after(g, es2), es1));
    assert_maps_equal!(
        records_after(records_after(m, es1), es2),
        records_after(records_after(m, es2), es1),
        x => {
            assert(!(rec_lookup(es1, x) is Some && rec_lookup(es2, x) is Some));
        }
    );
}

/// One parsing step: consuming the encoding of `e` from the head of `tail`
/// moves it from the pending suffix into the accumulated prefix.
proof fn lemma_opt_prepend_step(
    accv: Seq<EditV>,
    e: EditV,
    rest: Seq<u8>,
    n: nat,
    tail: Seq<u8>,
)
    requires
        parse_edits(tail, n + 1) == opt_prepend(seq![e], parse_edits(rest, n)),
    ensures
        opt_prepend(accv, parse_edits(tail, n + 1)) == opt_prepend(
            accv.push(e),
            parse_edits(rest, n),
        ),
{
    match parse_edits(rest, n) {
        Some(t) => {
            assert(accv + (seq![e] + t) =~= accv.push(e) + t);
        },
        None => {},
    }
}

} // verus!
