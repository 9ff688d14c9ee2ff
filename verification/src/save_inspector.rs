//! Inspection of external save files: which format a file has, whether a
//! file that was trusted has changed since, and which of the known saves to
//! offer first.

use vstd::prelude::*;
use crate::digest::{content_hash, reference_of};
use crate::error::{is_missing_save, Error, Missing};

verus! {

/// The format of a save file: the game generation and the layout within it.
#[derive(Debug, Clone, Copy, PartialEq, Eq, Hash, Structural)]
pub struct FormatTag {
    pub generation: u8,
    pub layout: u16,
}

/// Bytes that a format has at a fixed offset.
#[derive(Debug, PartialEq, Eq)]
pub struct Marker {
    pub offset: usize,
    pub bytes: Vec<u8>,
}

/// How a format is recognized: by the file's length, if the format fixes
/// one, and by markers, all of which must be present.
#[derive(Debug, PartialEq, Eq)]
pub struct Signature {
    pub tag: FormatTag,
    pub file_len: Option<u64>,
    pub markers: Vec<Marker>,
}

/// What `identify` found.
#[derive(Debug, Clone, Copy, PartialEq, Eq, Structural)]
pub enum Identification {
    Format(FormatTag),
    Unrecognized,
}

/// Whether `prefix` holds the marker's bytes at the marker's offset.
pub open spec fn marker_matches(prefix: Seq<u8>, marker: Marker) -> bool {
    &&& marker.offset + marker.bytes@.len() <= prefix.len()
    &&& prefix.subrange(marker.offset as int, marker.offset + marker.bytes@.len())
        == marker.bytes@
}

/// Whether a file of length `file_len` that starts with `prefix` has this
/// signature.
pub open spec fn signature_matches(prefix: Seq<u8>, file_len: u64, signature: Signature) -> bool {
    &&& signature.file_len matches Some(n) ==> n == file_len
    &&& forall|k: int|
        0 <= k < signature.markers@.len() ==> marker_matches(prefix, #[trigger] signature.markers@[k])
}

/// Whether `found` is what the first matching signature says, or
/// `Unrecognized` where none matches.
pub open spec fn identified(
    prefix: Seq<u8>,
    file_len: u64,
    known: Seq<Signature>,
    found: Identification,
) -> bool {
    match found {
        Identification::Format(tag) => exists|i: int|
            0 <= i < known.len() && signature_matches(prefix, file_len, #[trigger] known[i])
                && known[i].tag == tag && forall|j: int|
                0 <= j < i ==> !signature_matches(prefix, file_len, #[trigger] known[j]),
        Identification::Unrecognized => forall|i: int|
            0 <= i < known.len() ==> !signature_matches(prefix, file_len, #[trigger] known[i]),
    }
}

fn has_marker(prefix: &[u8], marker: &Marker) -> (present: bool)
    ensures
        present == marker_matches(prefix@, *marker),
{
    let len: usize = marker.bytes.len();
    if prefix.len() < len || marker.offset > prefix.len() - len {
        return false;
    }
    let mut k: usize = 0;
    while k < len
        invariant
            k <= len,
            len == marker.bytes@.len(),
            marker.offset + len <= prefix.len(),
            forall|j: int| 0 <= j < k ==> prefix@[marker.offset + j] == marker.bytes@[j],
        decreases len - k,
    {
        if prefix[marker.offset + k] != marker.bytes[k] {
            assert(prefix@.subrange(marker.offset as int, marker.offset + len)[k as int]
                != marker.bytes@[k as int]);
            return false;
        }
        k += 1;
    }
    assert(prefix@.subrange(marker.offset as int, marker.offset + len) =~= marker.bytes@);
    true
}

fn has_signature(prefix: &[u8], file_len: u64, signature: &Signature) -> (present: bool)
    ensures
        present == signature_matches(prefix@, file_len, *signature),
{
    match signature.file_len {
        Some(n) => {
            if n != file_len {
                return false;
            }
        },
        None => {},
    }
    let mut k: usize = 0;
    while k < signature.markers.len()
        invariant
            k <= signature.markers.len(),
            forall|j: int| 0 <= j < k ==> marker_matches(prefix@, #[trigger] signature.markers@[j]),
        decreases signature.markers.len() - k,
    {
        if !has_marker(prefix, &signature.markers[k]) {
            return false;
        }
        k += 1;
    }
    true
}

/// Classifies a file from its length and its leading bytes: the tag of the
/// first signature in `known` that the file has, or `Unrecognized`.
pub fn identify(prefix: &[u8], file_len: u64, known: &Vec<Signature>) -> (found: Identification)
    ensures
        identified(prefix@, file_len, known@, found),
{
    let mut i: usize = 0;
    while i < known.len()
        invariant
            i <= known.len(),
            forall|j: int| 0 <= j < i ==> !signature_matches(prefix@, file_len, #[trigger] known@[j]),
        decreases known.len() - i,
    {
        if has_signature(prefix, file_len, &known[i]) {
            assert(signature_matches(prefix@, file_len, known@[i as int]));
            return Identification::Format(known[i].tag);
        }
        i += 1;
    }
    Identification::Unrecognized
}

/// Whether no marker of any signature reaches beyond the first `n` bytes,
/// but for markers that cannot lie within any file.
pub open spec fn covers(known: Seq<Signature>, n: nat) -> bool {
    forall|i: int, k: int|
        0 <= i < known.len() && 0 <= k < known[i].markers@.len() ==> {
            let m = #[trigger] known[i].markers@[k];
            m.offset + m.bytes@.len() <= n || m.offset + m.bytes@.len() > usize::MAX
        }
}

/// How many leading bytes of a file `identify` needs to see: the farthest
/// end of any marker.
pub fn prefix_needed(known: &Vec<Signature>) -> (n: usize)
    ensures
        covers(known@, n as nat),
        n == 0 || exists|i: int, k: int|
            0 <= i < known@.len() && 0 <= k < known@[i].markers@.len() && n == (
            #[trigger] known@[i].markers@[k]).offset + known@[i].markers@[k].bytes@.len(),
{
    let mut n: usize = 0;
    let mut i: usize = 0;
    while i < known.len()
        invariant
            i <= known.len(),
            covers(known@.take(i as int), n as nat),
            n == 0 || exists|a: int, k: int|
                0 <= a < known@.len() && 0 <= k < known@[a].markers@.len() && n == (
                #[trigger] known@[a].markers@[k]).offset + known@[a].markers@[k].bytes@.len(),
        decreases known.len() - i,
    {
        let signature = &known[i];
        let mut k: usize = 0;
        while k < signature.markers.len()
            invariant
                i < known.len(),
                *signature == known@[i as int],
                k <= signature.markers.len(),
                covers(known@.take(i as int), n as nat),
                forall|j: int|
                    0 <= j < k ==> {
                        let m = #[trigger] signature.markers@[j];
                        m.offset + m.bytes@.len() <= n || m.offset + m.bytes@.len() > usize::MAX
                    },
                n == 0 || exists|a: int, b: int|
                    0 <= a < known@.len() && 0 <= b < known@[a].markers@.len() && n == (
                    #[trigger] known@[a].markers@[b]).offset + known@[a].markers@[b].bytes@.len(),
            decreases signature.markers.len() - k,
        {
            let marker = &signature.markers[k];
            match marker.offset.checked_add(marker.bytes.len()) {
                Some(end) => {
                    if end > n {
                        n = end;
                        assert(n == known@[i as int].markers@[k as int].offset + known@[i as int].markers@[k as int].bytes@.len());
                    }
                },
                None => {},
            }
            k += 1;
        }
        assert(covers(known@.take(i + 1), n as nat)) by {
            assert forall|a: int, b: int|
                0 <= a < known@.take(i + 1).len() && 0 <= b < known@.take(
                    i + 1,
                )[a].markers@.len() implies {
                let m = #[trigger] known@.take(i + 1)[a].markers@[b];
                m.offset + m.bytes@.len() <= n || m.offset + m.bytes@.len() > usize::MAX
            } by {
                if a < i {
                    let m = known@.take(i as int)[a].markers@[b];
                } else {
                    let m = signature.markers@[b];
                }
            }
        }
        i += 1;
    }
    assert(known@.take(i as int) =~= known@);
    n
}

/// A file is classified the same from any prefix that covers all markers
/// as from its whole contents.
pub proof fn lemma_prefix_suffices(
    file: Seq<u8>,
    n: nat,
    file_len: u64,
    known: Seq<Signature>,
    found: Identification,
)
    requires
        covers(known, n),
        n <= file.len() <= usize::MAX,
    ensures
        identified(file.take(n as int), file_len, known, found) == identified(
            file,
            file_len,
            known,
            found,
        ),
{
    let prefix = file.take(n as int);
    assert forall|i: int| 0 <= i < known.len() implies signature_matches(
        prefix,
        file_len,
        #[trigger] known[i],
    ) == signature_matches(file, file_len, known[i]) by {
        let s = known[i];
        assert forall|k: int| 0 <= k < s.markers@.len() implies marker_matches(
            prefix,
            #[trigger] s.markers@[k],
        ) == marker_matches(file, s.markers@[k]) by {
            let m = s.markers@[k];
            let end = m.offset + m.bytes@.len();
            if end <= n {
                assert(prefix.subrange(m.offset as int, end) =~= file.subrange(
                    m.offset as int,
                    end,
                ));
            }
        }
    }
}

/// Whether no file has two of the signatures: the order of the
/// signatures then does not matter to `identify`.
pub open spec fn exclusive(known: Seq<Signature>) -> bool {
    forall|prefix: Seq<u8>, file_len: u64, i: int, j: int|
        0 <= i < j < known.len() ==> !(#[trigger] signature_matches(prefix, file_len, known[i])
            && #[trigger] signature_matches(prefix, file_len, known[j]))
}

/// The save formats that are told apart by the length of the file alone,
/// each with that length: generation 3; generation 6 in its two layouts;
/// generation 7 in its two layouts.
pub open spec fn known_lengths() -> Seq<(FormatTag, u64)> {
    seq![
        (FormatTag { generation: 3, layout: 0 }, 0x2_0000u64),
        (FormatTag { generation: 6, layout: 0 }, 0x6_5600u64),
        (FormatTag { generation: 6, layout: 1 }, 0x7_6000u64),
        (FormatTag { generation: 7, layout: 0 }, 0x6_BE00u64),
        (FormatTag { generation: 7, layout: 1 }, 0x6_CC00u64),
    ]
}

fn by_length(generation: u8, layout: u16, file_len: u64) -> (signature: Signature)
    ensures
        signature.tag == (FormatTag { generation, layout }),
        signature.file_len == Some(file_len),
        signature.markers@.len() == 0,
{
    Signature { tag: FormatTag { generation, layout }, file_len: Some(file_len), markers: Vec::new() }
}

/// The signatures of the known save formats: one for each entry of
/// `known_lengths`, in that order, each fixing the length and nothing
/// else. No file has two of them.
pub fn known_formats() -> (formats: Vec<Signature>)
    ensures
        formats@.len() == known_lengths().len(),
        forall|i: int|
            0 <= i < formats@.len() ==> (#[trigger] formats@[i]).tag == known_lengths()[i].0
                && formats@[i].file_len == Some(known_lengths()[i].1)
                && formats@[i].markers@.len() == 0,
        exclusive(formats@),
{
    let mut formats: Vec<Signature> = Vec::new();
    formats.push(by_length(3, 0, 0x2_0000));
    formats.push(by_length(6, 0, 0x6_5600));
    formats.push(by_length(6, 1, 0x7_6000));
    formats.push(by_length(7, 0, 0x6_BE00));
    formats.push(by_length(7, 1, 0x6_CC00));
    proof {
        assert forall|prefix: Seq<u8>, file_len: u64, i: int, j: int|
            0 <= i < j < formats@.len() implies !(#[trigger] signature_matches(
            prefix,
            file_len,
            formats@[i],
        ) && #[trigger] signature_matches(prefix, file_len, formats@[j])) by {
            assert(formats@[i].file_len != formats@[j].file_len);
        }
    }
    formats
}

/// A file of one of the known lengths is identified as the format of
/// that length, and a file of any other length is not recognized.
pub proof fn lemma_known_by_length(known: Seq<Signature>, prefix: Seq<u8>, file_len: u64, found: Identification)
    requires
        known.len() == known_lengths().len(),
        forall|i: int|
            0 <= i < known.len() ==> (#[trigger] known[i]).tag == known_lengths()[i].0
                && known[i].file_len == Some(known_lengths()[i].1) && known[i].markers@.len() == 0,
        identified(prefix, file_len, known, found),
    ensures
        match found {
            Identification::Format(tag) => exists|i: int|
                0 <= i < known_lengths().len() && #[trigger] known_lengths()[i] == (tag, file_len),
            Identification::Unrecognized => forall|i: int|
                0 <= i < known_lengths().len() ==> (#[trigger] known_lengths()[i]).1 != file_len,
        },
{
    match found {
        Identification::Format(tag) => {
            let i = choose|i: int|
                0 <= i < known.len() && signature_matches(prefix, file_len, #[trigger] known[i])
                    && known[i].tag == tag;
            assert(known_lengths()[i] == (tag, file_len));
        },
        Identification::Unrecognized => {
            assert forall|i: int| 0 <= i < known_lengths().len() implies (
            #[trigger] known_lengths()[i]).1 != file_len by {
                assert(!signature_matches(prefix, file_len, known[i]));
            }
        },
    }
}

/// Whether a record is still believed.
#[derive(Debug, Clone, Copy, PartialEq, Eq, Structural)]
pub enum Trust {
    /// The file was recognized and matched its checksum when last seen.
    Trusted,
    /// The file changed, vanished, or has no known format.
    Stale,
}

/// What is remembered of one external save file.
#[derive(Debug, PartialEq, Eq)]
pub struct SaveFileRecord {
    pub path: String,
    /// The format found when the file was last read, if any.
    pub format: Option<FormatTag>,
    /// The checksum of the file's bytes when it was last trusted.
    pub checksum: u64,
    pub trust: Trust,
    /// When the save was last used, on the caller's clock.
    pub last_used: u64,
}

impl Clone for SaveFileRecord {
    fn clone(&self) -> (copy: SaveFileRecord)
        ensures
            copy == *self,
    {
        SaveFileRecord {
            path: self.path.clone(),
            format: self.format,
            checksum: self.checksum,
            trust: self.trust,
            last_used: self.last_used,
        }
    }
}

/// The verdict on a save that was trusted before.
#[derive(Debug, Clone, Copy, PartialEq, Eq, Structural)]
pub enum Validation {
    /// The file's bytes still have the recorded checksum.
    Valid,
    /// The file's bytes changed since it was trusted.
    Modified,
    /// The file is gone or cannot be opened.
    Unreadable,
}

/// The checksum of a file's bytes.
pub open spec fn checksum_of(contents: Seq<u8>) -> u64 {
    content_hash(contents)
}

/// The verdict for a recorded checksum and what is at the path now.
pub open spec fn verdict_for(checksum: u64, contents: Option<Seq<u8>>) -> Validation {
    match contents {
        None => Validation::Unreadable,
        Some(bytes) => if checksum_of(bytes) == checksum {
            Validation::Valid
        } else {
            Validation::Modified
        },
    }
}

/// The format that an identification stands for.
pub open spec fn format_of(found: Identification) -> Option<FormatTag> {
    match found {
        Identification::Format(tag) => Some(tag),
        Identification::Unrecognized => None,
    }
}

/// The trust that a file with this format deserves once its bytes are
/// accepted.
pub open spec fn trust_for(format: Option<FormatTag>) -> Trust {
    if format is Some {
        Trust::Trusted
    } else {
        Trust::Stale
    }
}

/// Computes the checksum of a file's bytes.
pub fn checksum(contents: &[u8]) -> (sum: u64)
    ensures
        sum == checksum_of(contents@),
{
    reference_of(contents).digest
}

/// Compares what is at the record's path now (`None` where the caller
/// could not read it) with the checksum taken when the save was trusted.
pub fn validate(record: &SaveFileRecord, contents: Option<&[u8]>) -> (verdict: Validation)
    ensures
        verdict == verdict_for(
            record.checksum,
            match contents {
                Some(bytes) => Some(bytes@),
                None => None,
            },
        ),
{
    match contents {
        None => Validation::Unreadable,
        Some(bytes) => {
            if checksum(bytes) == record.checksum {
                Validation::Valid
            } else {
                Validation::Modified
            }
        },
    }
}

fn tag_of(found: Identification) -> (format: Option<FormatTag>)
    ensures
        format == format_of(found),
{
    match found {
        Identification::Format(tag) => Some(tag),
        Identification::Unrecognized => None,
    }
}

fn trust_of(format: Option<FormatTag>) -> (trust: Trust)
    ensures
        trust == trust_for(format),
{
    match format {
        Some(_) => Trust::Trusted,
        None => Trust::Stale,
    }
}

impl SaveFileRecord {
    /// The record of a save file that is scanned for the first time: its
    /// format, the checksum of its bytes, and the time as last use. It is
    /// trusted if its format is known. There is no record of a file that
    /// the caller could not read (`None`).
    pub fn scan(path: String, contents: Option<&[u8]>, known: &Vec<Signature>, now: u64) -> (result:
        Result<SaveFileRecord, Error>)
        ensures
            match (contents, result) {
                (Some(bytes), Ok(record)) => {
                    &&& record.path == path
                    &&& identified(
                        bytes@,
                        bytes@.len() as u64,
                        known@,
                        match record.format {
                            Some(tag) => Identification::Format(tag),
                            None => Identification::Unrecognized,
                        },
                    )
                    &&& record.checksum == checksum_of(bytes@)
                    &&& record.trust == trust_for(record.format)
                    &&& record.last_used == now
                },
                (None, Err(e)) => is_missing_save(e, path@),
                _ => false,
            },
    {
        match contents {
            None => Err(Error::NotFound(Missing::SavePath(path))),
            Some(bytes) => {
                let format = tag_of(identify(bytes, bytes.len() as u64, known));
                Ok(
                    SaveFileRecord {
                        path,
                        format,
                        checksum: checksum(bytes),
                        trust: trust_of(format),
                        last_used: now,
                    },
                )
            },
        }
    }

    /// Validates the save and sets the trust of the record to match: stale
    /// if the file changed or cannot be read, else trusted if its format
    /// is known. Path, checksum, format and last use stay as they are.
    pub fn revalidate(&mut self, contents: Option<&[u8]>) -> (verdict: Validation)
        ensures
            verdict == verdict_for(
                old(self).checksum,
                match contents {
                    Some(bytes) => Some(bytes@),
                    None => None,
                },
            ),
            final(self).trust == if verdict == Validation::Valid {
                trust_for(old(self).format)
            } else {
                Trust::Stale
            },
            final(self).path == old(self).path,
            final(self).format == old(self).format,
            final(self).checksum == old(self).checksum,
            final(self).last_used == old(self).last_used,
    {
        let verdict = validate(self, contents);
        self.trust = match verdict {
            Validation::Valid => trust_of(self.format),
            _ => Trust::Stale,
        };
        verdict
    }

    /// Accepts the file as it is now, after the user confirmed it: format
    /// and checksum are taken anew, and the time becomes the last use.
    pub fn confirm(&mut self, contents: &[u8], known: &Vec<Signature>, now: u64)
        ensures
            final(self).path == old(self).path,
            identified(
                contents@,
                contents@.len() as u64,
                known@,
                match final(self).format {
                    Some(tag) => Identification::Format(tag),
                    None => Identification::Unrecognized,
                },
            ),
            final(self).checksum == checksum_of(contents@),
            final(self).trust == trust_for(final(self).format),
            final(self).last_used == now,
            verdict_for(final(self).checksum, Some(contents@)) == Validation::Valid,
    {
        let format = tag_of(identify(contents, contents.len() as u64, known));
        self.format = format;
        self.checksum = checksum(contents);
        self.trust = trust_of(format);
        self.last_used = now;
    }
}

/// What the caller is looking for.
#[derive(Debug, Clone, Copy, PartialEq, Eq, Structural)]
pub struct Context {
    /// The generation wanted, if any.
    pub generation: Option<u8>,
}

/// Whether a save has the format that the context asks for.
pub open spec fn fits(record: SaveFileRecord, context: Context) -> bool {
    match (context.generation, record.format) {
        (Some(wanted), Some(tag)) => tag.generation == wanted,
        _ => false,
    }
}

/// Whether the save at index `a` is offered before the one at index `b`:
/// a save that fits the context comes before one that does not; of two
/// alike in that, the one used more recently comes first; of two alike in
/// both, the one that stands first in `known`.
pub open spec fn precedes(known: Seq<SaveFileRecord>, context: Context, a: int, b: int) -> bool {
    if fits(known[a], context) != fits(known[b], context) {
        fits(known[a], context)
    } else if known[a].last_used != known[b].last_used {
        known[a].last_used > known[b].last_used
    } else {
        a < b
    }
}

/// Whether each entry of `order` is offered before all later ones.
pub open spec fn in_order(known: Seq<SaveFileRecord>, context: Context, order: Seq<usize>) -> bool {
    forall|p: int, q: int|
        0 <= p < q < order.len() ==> precedes(
            known,
            context,
            (#[trigger] order[p]) as int,
            (#[trigger] order[q]) as int,
        )
}

/// Whether `order` lists every index of `known` once, in the order in
/// which the saves are offered.
pub open spec fn is_ranking(known: Seq<SaveFileRecord>, context: Context, order: Seq<usize>) -> bool {
    &&& order.len() == known.len()
    &&& forall|p: int| 0 <= p < order.len() ==> (#[trigger] order[p]) < known.len()
    &&& forall|i: int| 0 <= i < known.len() ==> #[trigger] order.contains(i as usize)
    &&& in_order(known, context, order)
}

/// The order in which the saves are offered. There is exactly one.
pub open spec fn ranking(known: Seq<SaveFileRecord>, context: Context) -> Seq<usize> {
    choose|order: Seq<usize>| is_ranking(known, context, order)
}

/// The saves at the indices that `order` lists.
pub open spec fn picked(known: Seq<SaveFileRecord>, order: Seq<usize>) -> Seq<SaveFileRecord> {
    Seq::new(order.len(), |p: int| known[order[p] as int])
}

proof fn lemma_in_order_same_elements(
    known: Seq<SaveFileRecord>,
    context: Context,
    first: Seq<usize>,
    second: Seq<usize>,
)
    requires
        in_order(known, context, first),
        in_order(known, context, second),
        forall|x: usize| first.contains(x) <==> second.contains(x),
    ensures
        first == second,
    decreases first.len(),
{
    if first.len() == 0 {
        if second.len() > 0 {
            assert(second.contains(second[0]));
        }
        assert(first =~= second);
    } else {
        assert(first.contains(first[0]));
        let q = choose|q: int| 0 <= q < second.len() && second[q] == first[0];
        if q > 0 {
            assert(second.contains(second[0]));
            let q1 = choose|q1: int| 0 <= q1 < first.len() && first[q1] == second[0];
            assert(precedes(known, context, second[0] as int, second[q] as int));
            if q1 > 0 {
                assert(precedes(known, context, first[0] as int, first[q1] as int));
            }
        }
        assert(first[0] == second[0]);
        let rest1 = first.skip(1);
        let rest2 = second.skip(1);
        assert forall|x: usize| rest1.contains(x) <==> rest2.contains(x) by {
            if rest1.contains(x) {
                let p = choose|p: int| 0 <= p < rest1.len() && rest1[p] == x;
                assert(first[p + 1] == x);
                assert(precedes(known, context, first[0] as int, first[p + 1] as int));
                assert(first.contains(x));
                let r = choose|r: int| 0 <= r < second.len() && second[r] == x;
                assert(r > 0);
                assert(rest2[r - 1] == x);
            }
            if rest2.contains(x) {
                let p = choose|p: int| 0 <= p < rest2.len() && rest2[p] == x;
                assert(second[p + 1] == x);
                assert(precedes(known, context, second[0] as int, second[p + 1] as int));
                assert(second.contains(x));
                let r = choose|r: int| 0 <= r < first.len() && first[r] == x;
                assert(r > 0);
                assert(rest1[r - 1] == x);
            }
        }
        assert(in_order(known, context, rest1)) by {
            assert forall|p: int, q: int| 0 <= p < q < rest1.len() implies precedes(
                known,
                context,
                (#[trigger] rest1[p]) as int,
                (#[trigger] rest1[q]) as int,
            ) by {
                assert(precedes(known, context, first[p + 1] as int, first[q + 1] as int));
            }
        }
        assert(in_order(known, context, rest2)) by {
            assert forall|p: int, q: int| 0 <= p < q < rest2.len() implies precedes(
                known,
                context,
                (#[trigger] rest2[p]) as int,
                (#[trigger] rest2[q]) as int,
            ) by {
                assert(precedes(known, context, second[p + 1] as int, second[q + 1] as int));
            }
        }
        lemma_in_order_same_elements(known, context, rest1, rest2);
        assert(first =~= seq![first[0]] + rest1);
        assert(second =~= seq![second[0]] + rest2);
    }
}

/// Two rankings of the same saves for the same context are the same.
pub proof fn lemma_ranking_unique(
    known: Seq<SaveFileRecord>,
    context: Context,
    first: Seq<usize>,
    second: Seq<usize>,
)
    requires
        is_ranking(known, context, first),
        is_ranking(known, context, second),
    ensures
        first == second,
{
    assert forall|x: usize| first.contains(x) <==> second.contains(x) by {
        if first.contains(x) {
            let p = choose|p: int| 0 <= p < first.len() && first[p] == x;
            assert(second.contains((x as int) as usize));
        }
        if second.contains(x) {
            let p = choose|p: int| 0 <= p < second.len() && second[p] == x;
            assert(first.contains((x as int) as usize));
        }
    }
    lemma_in_order_same_elements(known, context, first, second);
}

fn record_fits(record: &SaveFileRecord, context: &Context) -> (yes: bool)
    ensures
        yes == fits(*record, *context),
{
    match (context.generation, record.format) {
        (Some(wanted), Some(tag)) => tag.generation == wanted,
        _ => false,
    }
}

fn outranks(known: &Vec<SaveFileRecord>, context: &Context, a: usize, b: usize) -> (yes: bool)
    requires
        a < known.len(),
        b < known.len(),
    ensures
        yes == precedes(known@, *context, a as int, b as int),
{
    let fits_a = record_fits(&known[a], context);
    let fits_b = record_fits(&known[b], context);
    if fits_a != fits_b {
        fits_a
    } else if known[a].last_used != known[b].last_used {
        known[a].last_used > known[b].last_used
    } else {
        a < b
    }
}

/// Ranks the known saves for a context, as indices into `known`.
pub fn rank(known: &Vec<SaveFileRecord>, context: &Context) -> (order: Vec<usize>)
    ensures
        is_ranking(known@, *context, order@),
        order@ == ranking(known@, *context),
{
    let mut order: Vec<usize> = Vec::new();
    let mut i: usize = 0;
    while i < known.len()
        invariant
            i <= known.len(),
            order@.len() == i,
            forall|p: int| 0 <= p < order@.len() ==> (#[trigger] order@[p]) < i,
            forall|x: int| 0 <= x < i ==> #[trigger] order@.contains(x as usize),
            in_order(known@, *context, order@),
        decreases known.len() - i,
    {
        let mut p: usize = order.len();
        while p > 0 && outranks(known, context, i, order[p - 1])
            invariant
                i < known.len(),
                p <= order@.len(),
                forall|q: int| 0 <= q < order@.len() ==> (#[trigger] order@[q]) < i,
                forall|q: int|
                    p <= q < order@.len() ==> precedes(
                        known@,
                        *context,
                        i as int,
                        (#[trigger] order@[q]) as int,
                    ),
            decreases p,
        {
            p -= 1;
        }
        let ghost before = order@;
        order.insert(p, i);
        proof {
            assert forall|a: int, b: int| 0 <= a < b < order@.len() implies precedes(
                known@,
                *context,
                (#[trigger] order@[a]) as int,
                (#[trigger] order@[b]) as int,
            ) by {
                let xa = if a < p { a } else { a - 1 };
                let xb = if b < p { b } else { b - 1 };
                if a == p {
                    assert(order@[b] == before[b - 1]);
                } else if b == p {
                    assert(order@[a] == before[a]);
                    assert(before[p - 1] < i);
                    assert(!precedes(known@, *context, i as int, before[p - 1] as int));
                    if a < p - 1 {
                        assert(precedes(known@, *context, before[a] as int, before[p - 1] as int));
                    }
                } else {
                    assert(order@[a] == before[xa]);
                    assert(order@[b] == before[xb]);
                    assert(precedes(known@, *context, before[xa] as int, before[xb] as int));
                }
            }
            assert forall|x: int| 0 <= x < i + 1 implies #[trigger] order@.contains(
                x as usize,
            ) by {
                if x == i {
                    assert(order@[p as int] == i);
                } else {
                    assert(before.contains(x as usize));
                    let w = choose|w: int| 0 <= w < before.len() && before[w] == x as usize;
                    let nw = if w < p { w } else { w + 1 };
                    assert(order@[nw] == x as usize);
                }
            }
            assert forall|q: int| 0 <= q < order@.len() implies (#[trigger] order@[q]) < i + 1 by {
                if q < p {
                    assert(order@[q] == before[q]);
                } else if q > p {
                    assert(order@[q] == before[q - 1]);
                }
            }
        }
        i += 1;
    }
    proof {
        assert(is_ranking(known@, *context, order@));
        lemma_ranking_unique(known@, *context, order@, ranking(known@, *context));
    }
    order
}

/// The known saves in the order in which to offer them for a context: a
/// list that is complete when it is returned.
pub fn suggest(known: &Vec<SaveFileRecord>, context: &Context) -> (suggested: Vec<SaveFileRecord>)
    ensures
        is_ranking(known@, *context, ranking(known@, *context)),
        suggested@ == picked(known@, ranking(known@, *context)),
{
    let order = rank(known, context);
    let mut suggested: Vec<SaveFileRecord> = Vec::with_capacity(order.len());
    let mut p: usize = 0;
    while p < order.len()
        invariant
            p <= order.len(),
            is_ranking(known@, *context, order@),
            suggested@.len() == p,
            forall|q: int| 0 <= q < p ==> #[trigger] suggested@[q] == known@[order@[q] as int],
        decreases order.len() - p,
    {
        suggested.push(known[order[p]].clone());
        p += 1;
    }
    assert(suggested@ =~= picked(known@, order@));
    suggested
}

/// Every save is offered, and offered once: what is suggested is what is
/// known, rearranged.
pub proof fn lemma_suggestion_rearranges(known: Seq<SaveFileRecord>, context: Context, i: usize)
    requires
        i < known.len(),
        is_ranking(known, context, ranking(known, context)),
    ensures
        picked(known, ranking(known, context)).len() == known.len(),
        exists|p: int|
            0 <= p < known.len() && ranking(known, context)[p] == i && #[trigger] picked(
                known,
                ranking(known, context),
            )[p] == known[i as int],
        forall|p: int, q: int|
            0 <= p < q < known.len() ==> ranking(known, context)[p] != ranking(known, context)[q],
{
    let order = ranking(known, context);
    assert(order.contains((i as int) as usize));
    let p = choose|p: int| 0 <= p < order.len() && order[p] == i;
    assert(picked(known, order)[p] == known[i as int]);
    assert forall|a: int, b: int| 0 <= a < b < known.len() implies order[a] != order[b] by {
        assert(precedes(known, context, order[a] as int, order[b] as int));
    }
}

} // verus!
