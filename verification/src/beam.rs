//! Decoding of compiled module artifacts.
//!
//! An artifact is a chunked binary container: a `FOR1` header announcing a
//! payload that carries `BEAM`-tagged, named, length-prefixed, 4-byte-padded
//! chunks. Three chunks matter here: the atom table (length-prefixed names,
//! 1-based local indices), the export table and the import table (fixed-width
//! big-endian records whose atom references are local indices). Decoding
//! resolves every local index to the named string immediately; no other chunk
//! is validated.

use vstd::prelude::*;
use vstd::utf8::{decode_utf8, valid_utf8};

verus! {

/// Chunk and header names, read as big-endian 32-bit tags.
pub const FOR1_TAG: u32 = 0x464F5231;

pub const BEAM_TAG: u32 = 0x4245414D;

pub const ATOM_TAG: u32 = 0x41746F6D;

pub const ATU8_TAG: u32 = 0x41745538;

pub const EXPT_TAG: u32 = 0x45787054;

pub const IMPT_TAG: u32 = 0x496D7054;

/// Why a compiled module artifact failed to decode. Every variant is fatal
/// for the whole load.
#[derive(Clone, Copy, PartialEq, Eq, Structural, Debug)]
pub enum ArtifactError {
    /// No `FOR1`/`BEAM` header, or the payload it announces overruns the file.
    BadHeader,
    /// A chunk header or its padded data overruns the payload.
    BadChunk,
    MissingAtomChunk,
    MissingExportChunk,
    MissingImportChunk,
    /// The atom table's count or a length-prefixed name overruns its chunk.
    BadAtomTable,
    /// An atom name is not valid UTF-8.
    AtomNameNotUtf8,
    /// The atom table is empty, so the module has no name.
    EmptyAtomTable,
    /// The export table's count or a record overruns its chunk.
    BadExportTable,
    /// The import table's count or a record overruns its chunk.
    BadImportTable,
    /// A 1-based local atom index is zero or past the atom table.
    BadAtomIndex,
}

/// The big-endian 32-bit value at offset `i` of `b`.
pub open spec fn be32(b: Seq<u8>, i: int) -> int
    recommends
        0 <= i,
        i + 4 <= b.len(),
{
    0x100_0000 * (b[i] as int) + 0x1_0000 * (b[i + 1] as int) + 0x100 * (b[i + 2] as int) + (b[i
        + 3] as int)
}

/// Bytes of padding that follow a chunk of `n` data bytes.
pub open spec fn pad4(n: int) -> int {
    (4 - n % 4) % 4
}

/// The payload region the header announces: requires at least the 12 header
/// bytes, the `FOR1` and `BEAM` tags, and a size field (which counts the
/// `BEAM` tag) whose region lies within the file. Trailing bytes are ignored.
pub open spec fn spec_payload(b: Seq<u8>) -> Result<Seq<u8>, ArtifactError> {
    if b.len() < 12 {
        Err(ArtifactError::BadHeader)
    } else if be32(b, 0) != FOR1_TAG || be32(b, 8) != BEAM_TAG {
        Err(ArtifactError::BadHeader)
    } else {
        let ps = be32(b, 4);
        if ps < 4 || 12 + (ps - 4) > b.len() {
            Err(ArtifactError::BadHeader)
        } else {
            Ok(b.subrange(12, 12 + (ps - 4)))
        }
    }
}

/// The chunks of the payload `p` from offset `pos` on: each is a 4-byte name
/// tag, a big-endian data size, the data, and padding to a 4-byte boundary,
/// all of which must lie within the payload.
pub open spec fn spec_chunks_from(p: Seq<u8>, pos: int) -> Result<
    Seq<(int, Seq<u8>)>,
    ArtifactError,
>
    recommends
        0 <= pos,
    decreases p.len() - pos,
{
    if pos >= p.len() {
        Ok(Seq::empty())
    } else if pos + 8 > p.len() {
        Err(ArtifactError::BadChunk)
    } else {
        let id = be32(p, pos);
        let size = be32(p, pos + 4);
        let adv = 8 + size + pad4(size);
        if pos + adv > p.len() {
            Err(ArtifactError::BadChunk)
        } else {
            match spec_chunks_from(p, pos + adv) {
                Err(e) => Err(e),
                Ok(rest) => Ok(seq![(id, p.subrange(pos + 8, pos + 8 + size))] + rest),
            }
        }
    }
}

/// The data of the last chunk named `id1` or `id2`, if any.
pub open spec fn find_last(chunks: Seq<(int, Seq<u8>)>, id1: int, id2: int) -> Option<Seq<u8>>
    decreases chunks.len(),
{
    if chunks.len() == 0 {
        None
    } else if chunks.last().0 == id1 || chunks.last().0 == id2 {
        Some(chunks.last().1)
    } else {
        find_last(chunks.drop_last(), id1, id2)
    }
}

/// The chunk list as the specification sees the parsed vector.
pub open spec fn chunks_view(v: Seq<(u32, Vec<u8>)>) -> Seq<(int, Seq<u8>)> {
    v.map_values(|c: (u32, Vec<u8>)| (c.0 as int, c.1@))
}

/// Prepend already-parsed chunks to the outcome on the rest of the payload.
pub open spec fn chunks_prepend(
    acc: Seq<(int, Seq<u8>)>,
    r: Result<Seq<(int, Seq<u8>)>, ArtifactError>,
) -> Result<Seq<(int, Seq<u8>)>, ArtifactError> {
    match r {
        Ok(rest) => Ok(acc + rest),
        Err(e) => Err(e),
    }
}

/// Pushing onto a vector pushes the element's view onto the deep view.
proof fn lemma_vec_deep_view_push<T: DeepView>(pre: Vec<T>, post: Vec<T>, x: T)
    requires
        post@ == pre@.push(x),
    ensures
        post.deep_view() == pre.deep_view().push(x.deep_view()),
{
    assert(post.deep_view() =~= pre.deep_view().push(x.deep_view()));
}

/// Read the big-endian 32-bit value at offset `i`.
fn be32_at(b: &Vec<u8>, i: usize) -> (r: u32)
    requires
        i + 4 <= b.len(),
    ensures
        r == be32(b@, i as int),
{
    (b[i] as u32) * 0x100_0000 + (b[i + 1] as u32) * 0x1_0000 + (b[i + 2] as u32) * 0x100 + (b[i
        + 3] as u32)
}

/// Copy the bytes of `b` in `[from, to)`.
fn sub_bytes(b: &Vec<u8>, from: usize, to: usize) -> (r: Vec<u8>)
    requires
        from <= to <= b.len(),
    ensures
        r@ == b@.subrange(from as int, to as int),
{
    let mut r: Vec<u8> = Vec::new();
    let mut k = from;
    while k < to
        invariant
            from <= k <= to <= b.len(),
            r@ == b@.subrange(from as int, k as int),
        decreases to - k,
    {
        r.push(b[k]);
        proof {
            assert(b@.subrange(from as int, k as int).push(b@[k as int]) =~= b@.subrange(
                from as int,
                k as int + 1,
            ));
        }
        k += 1;
    }
    r
}

/// Extract the payload region (see `spec_payload`).
fn parse_payload(b: &Vec<u8>) -> (r: Result<Vec<u8>, ArtifactError>)
    ensures
        r matches Ok(p) ==> spec_payload(b@) == Ok::<Seq<u8>, ArtifactError>(p@),
        r matches Err(e) ==> spec_payload(b@) == Err::<Seq<u8>, ArtifactError>(e),
{
    if b.len() < 12 {
        return Err(ArtifactError::BadHeader);
    }
    if be32_at(b, 0) != FOR1_TAG || be32_at(b, 8) != BEAM_TAG {
        return Err(ArtifactError::BadHeader);
    }
    let ps = be32_at(b, 4);
    if ps < 4 {
        return Err(ArtifactError::BadHeader);
    }
    let body = (ps - 4) as usize;
    if body > b.len() - 12 {
        return Err(ArtifactError::BadHeader);
    }
    Ok(sub_bytes(b, 12, 12 + body))
}

/// Split the payload into its chunks (see `spec_chunks_from`).
fn parse_chunks(p: &Vec<u8>) -> (r: Result<Vec<(u32, Vec<u8>)>, ArtifactError>)
    ensures
        r matches Ok(v) ==> spec_chunks_from(p@, 0) == Ok::<Seq<(int, Seq<u8>)>, ArtifactError>(
            chunks_view(v@),
        ),
        r matches Err(e) ==> spec_chunks_from(p@, 0) == Err::<Seq<(int, Seq<u8>)>, ArtifactError>(
            e,
        ),
{
    let mut acc: Vec<(u32, Vec<u8>)> = Vec::new();
    let mut pos: usize = 0;
    while pos < p.len()
        invariant
            pos <= p.len(),
            spec_chunks_from(p@, 0) == chunks_prepend(
                chunks_view(acc@),
                spec_chunks_from(p@, pos as int),
            ),
        decreases p.len() - pos,
    {
        if p.len() - pos < 8 {
            return Err(ArtifactError::BadChunk);
        }
        let id = be32_at(p, pos);
        let size = be32_at(p, pos + 4);
        let pad = (4 - size % 4) % 4;
        if ((p.len() - pos) as u64) < 8 + size as u64 + pad as u64 {
            return Err(ArtifactError::BadChunk);
        }
        let data_end = pos + 8 + size as usize;
        let data = sub_bytes(p, pos + 8, data_end);
        let ghost prev = acc@;
        let ghost prev_pos = pos as int;
        acc.push((id, data));
        pos = data_end + pad as usize;
        proof {
            assert(pad4(size as int) == pad as int) by {
                assert(size as int % 4 == (size % 4) as int);
            }
            assert(chunks_view(acc@) =~= chunks_view(prev) + seq![
                (id as int, p@.subrange(prev_pos + 8, prev_pos + 8 + size)),
            ]);
            assert(spec_chunks_from(p@, prev_pos) == chunks_prepend(
                seq![(id as int, p@.subrange(prev_pos + 8, prev_pos + 8 + size))],
                spec_chunks_from(p@, pos as int),
            ));
            assert(chunks_prepend(
                chunks_view(prev),
                chunks_prepend(
                    seq![(id as int, p@.subrange(prev_pos + 8, prev_pos + 8 + size))],
                    spec_chunks_from(p@, pos as int),
                ),
            ) == chunks_prepend(chunks_view(acc@), spec_chunks_from(p@, pos as int))) by {
                match spec_chunks_from(p@, pos as int) {
                    Ok(rest) => {
                        assert(chunks_view(prev) + (seq![
                            (id as int, p@.subrange(prev_pos + 8, prev_pos + 8 + size)),
                        ] + rest) =~= chunks_view(acc@) + rest);
                    },
                    Err(_) => {},
                }
            }
        }
    }
    proof {
        assert(spec_chunks_from(p@, pos as int) == Ok::<Seq<(int, Seq<u8>)>, ArtifactError>(
            Seq::empty(),
        ));
        assert(chunks_view(acc@) + Seq::<(int, Seq<u8>)>::empty() =~= chunks_view(acc@));
    }
    Ok(acc)
}

/// Find the position of the last chunk named `id1` or `id2`.
fn find_last_idx(chunks: &Vec<(u32, Vec<u8>)>, id1: u32, id2: u32) -> (r: Option<usize>)
    ensures
        r matches Some(i) ==> i < chunks.len() && find_last(
            chunks_view(chunks@),
            id1 as int,
            id2 as int,
        ) == Some(chunks@[i as int].1@),
        r is None ==> find_last(chunks_view(chunks@), id1 as int, id2 as int) is None,
{
    let ghost cv = chunks_view(chunks@);
    proof {
        assert(cv.take(chunks.len() as int) =~= cv);
    }
    let mut i = chunks.len();
    while i > 0
        invariant
            i <= chunks.len(),
            cv == chunks_view(chunks@),
            find_last(cv, id1 as int, id2 as int) == find_last(
                cv.take(i as int),
                id1 as int,
                id2 as int,
            ),
        decreases i,
    {
        let c = &chunks[i - 1];
        proof {
            assert(cv.take(i as int).last() == cv[i - 1]);
            assert(cv[i - 1] == (chunks@[i - 1].0 as int, chunks@[i - 1].1@));
        }
        if c.0 == id1 || c.0 == id2 {
            return Some(i - 1);
        }
        proof {
            assert(cv.take(i as int).drop_last() =~= cv.take(i as int - 1));
        }
        i = i - 1;
    }
    proof {
        assert(cv.take(0) =~= Seq::<(int, Seq<u8>)>::empty());
    }
    None
}

/// Prepend already-parsed rows to the outcome on the rest of a table.
pub open spec fn res_prepend<T>(acc: Seq<T>, r: Result<Seq<T>, ArtifactError>) -> Result<
    Seq<T>,
    ArtifactError,
> {
    match r {
        Ok(rest) => Ok(acc + rest),
        Err(e) => Err(e),
    }
}

/// The atom table's names (as raw bytes) from offset `pos` on, `count` of
/// them: each is one length byte and that many name bytes.
pub open spec fn spec_atom_names_from(d: Seq<u8>, pos: int, count: int) -> Result<
    Seq<Seq<u8>>,
    ArtifactError,
>
    decreases count,
{
    if count <= 0 {
        Ok(Seq::empty())
    } else if pos + 1 > d.len() {
        Err(ArtifactError::BadAtomTable)
    } else {
        let l = d[pos] as int;
        if pos + 1 + l > d.len() {
            Err(ArtifactError::BadAtomTable)
        } else {
            match spec_atom_names_from(d, pos + 1 + l, count - 1) {
                Err(e) => Err(e),
                Ok(rest) => Ok(seq![d.subrange(pos + 1, pos + 1 + l)] + rest),
            }
        }
    }
}

/// The atom table: a big-endian count, then that many length-prefixed names.
/// Trailing bytes are ignored.
pub open spec fn spec_atom_names(d: Seq<u8>) -> Result<Seq<Seq<u8>>, ArtifactError> {
    if d.len() < 4 {
        Err(ArtifactError::BadAtomTable)
    } else {
        spec_atom_names_from(d, 4, be32(d, 0))
    }
}

/// Every name is valid UTF-8.
pub open spec fn all_utf8(names: Seq<Seq<u8>>) -> bool {
    forall|i: int| 0 <= i < names.len() ==> valid_utf8(#[trigger] names[i])
}

/// The names decoded from UTF-8 bytes to characters.
pub open spec fn decoded_names(names: Seq<Seq<u8>>) -> Seq<Seq<char>> {
    names.map_values(|n: Seq<u8>| decode_utf8(n))
}

/// The export table's raw records from offset `pos` on, `count` of them:
/// 12-byte records of which the local function index and the arity matter
/// (the third field, a code label, does not).
pub open spec fn spec_exports_from(d: Seq<u8>, pos: int, count: int) -> Result<
    Seq<(int, int)>,
    ArtifactError,
>
    decreases count,
{
    if count <= 0 {
        Ok(Seq::empty())
    } else if pos + 12 > d.len() {
        Err(ArtifactError::BadExportTable)
    } else {
        match spec_exports_from(d, pos + 12, count - 1) {
            Err(e) => Err(e),
            Ok(rest) => Ok(seq![(be32(d, pos), be32(d, pos + 4))] + rest),
        }
    }
}

/// The export table: a big-endian count, then that many records. Trailing
/// bytes are ignored.
pub open spec fn spec_exports_raw(d: Seq<u8>) -> Result<Seq<(int, int)>, ArtifactError> {
    if d.len() < 4 {
        Err(ArtifactError::BadExportTable)
    } else {
        spec_exports_from(d, 4, be32(d, 0))
    }
}

/// The import table's raw records from offset `pos` on, `count` of them:
/// 12-byte records of local module index, local function index and arity.
pub open spec fn spec_imports_from(d: Seq<u8>, pos: int, count: int) -> Result<
    Seq<(int, int, int)>,
    ArtifactError,
>
    decreases count,
{
    if count <= 0 {
        Ok(Seq::empty())
    } else if pos + 12 > d.len() {
        Err(ArtifactError::BadImportTable)
    } else {
        match spec_imports_from(d, pos + 12, count - 1) {
            Err(e) => Err(e),
            Ok(rest) => Ok(seq![(be32(d, pos), be32(d, pos + 4), be32(d, pos + 8))] + rest),
        }
    }
}

/// The import table: a big-endian count, then that many records. Trailing
/// bytes are ignored.
pub open spec fn spec_imports_raw(d: Seq<u8>) -> Result<Seq<(int, int, int)>, ArtifactError> {
    if d.len() < 4 {
        Err(ArtifactError::BadImportTable)
    } else {
        spec_imports_from(d, 4, be32(d, 0))
    }
}

/// Raw export records as the specification sees the parsed vector.
pub open spec fn pairs_view(v: Seq<(u32, u32)>) -> Seq<(int, int)> {
    v.map_values(|c: (u32, u32)| (c.0 as int, c.1 as int))
}

/// Raw import records as the specification sees the parsed vector.
pub open spec fn triples_view(v: Seq<(u32, u32, u32)>) -> Seq<(int, int, int)> {
    v.map_values(|c: (u32, u32, u32)| (c.0 as int, c.1 as int, c.2 as int))
}

/// Parse the atom table into raw names (see `spec_atom_names`).
fn parse_atom_names(d: &Vec<u8>) -> (r: Result<Vec<Vec<u8>>, ArtifactError>)
    ensures
        r matches Ok(v) ==> spec_atom_names(d@) == Ok::<Seq<Seq<u8>>, ArtifactError>(
            v.deep_view(),
        ),
        r matches Err(e) ==> spec_atom_names(d@) == Err::<Seq<Seq<u8>>, ArtifactError>(e),
{
    if d.len() < 4 {
        return Err(ArtifactError::BadAtomTable);
    }
    let count = be32_at(d, 0);
    let mut out: Vec<Vec<u8>> = Vec::new();
    let mut pos: usize = 4;
    let mut k: u32 = 0;
    while k < count
        invariant
            pos <= d.len(),
            4 <= d.len(),
            k <= count,
            count == be32(d@, 0),
            spec_atom_names(d@) == res_prepend(
                out.deep_view(),
                spec_atom_names_from(d@, pos as int, count - k),
            ),
        decreases count - k,
    {
        if pos >= d.len() {
            return Err(ArtifactError::BadAtomTable);
        }
        let l = d[pos] as usize;
        if l > d.len() - pos - 1 {
            return Err(ArtifactError::BadAtomTable);
        }
        let name = sub_bytes(d, pos + 1, pos + 1 + l);
        let ghost prev_vec = out;
        let ghost prev = out.deep_view();
        let ghost prev_pos = pos as int;
        let ghost name_snap = name;
        out.push(name);
        pos = pos + 1 + l;
        k += 1;
        proof {
            lemma_vec_deep_view_push(prev_vec, out, name_snap);
            assert(name_snap.deep_view() =~= d@.subrange(prev_pos + 1, prev_pos + 1 + l));
            assert(out.deep_view() =~= prev + seq![d@.subrange(prev_pos + 1, prev_pos + 1 + l)]);
            assert(spec_atom_names_from(d@, prev_pos, count - (k - 1)) == res_prepend(
                seq![d@.subrange(prev_pos + 1, prev_pos + 1 + l)],
                spec_atom_names_from(d@, pos as int, count - k),
            ));
            match spec_atom_names_from(d@, pos as int, count - k) {
                Ok(rest) => {
                    assert(prev + (seq![d@.subrange(prev_pos + 1, prev_pos + 1 + l)] + rest)
                        =~= out.deep_view() + rest);
                },
                Err(_) => {},
            }
        }
    }
    Ok(out)
}

/// Parse the export table into raw records (see `spec_exports_raw`).
fn parse_export_records(d: &Vec<u8>) -> (r: Result<Vec<(u32, u32)>, ArtifactError>)
    ensures
        r matches Ok(v) ==> spec_exports_raw(d@) == Ok::<Seq<(int, int)>, ArtifactError>(
            pairs_view(v@),
        ),
        r matches Err(e) ==> spec_exports_raw(d@) == Err::<Seq<(int, int)>, ArtifactError>(e),
{
    if d.len() < 4 {
        return Err(ArtifactError::BadExportTable);
    }
    let count = be32_at(d, 0);
    let mut out: Vec<(u32, u32)> = Vec::new();
    let mut pos: usize = 4;
    let mut k: u32 = 0;
    while k < count
        invariant
            pos <= d.len(),
            4 <= d.len(),
            k <= count,
            count == be32(d@, 0),
            spec_exports_raw(d@) == res_prepend(
                pairs_view(out@),
                spec_exports_from(d@, pos as int, count - k),
            ),
        decreases count - k,
    {
        if d.len() - pos < 12 {
            return Err(ArtifactError::BadExportTable);
        }
        let f = be32_at(d, pos);
        let a = be32_at(d, pos + 4);
        let ghost prev = pairs_view(out@);
        let ghost prev_pos = pos as int;
        out.push((f, a));
        pos = pos + 12;
        k += 1;
        proof {
            assert(pairs_view(out@) =~= prev + seq![(f as int, a as int)]);
            assert(spec_exports_from(d@, prev_pos, count - (k - 1)) == res_prepend(
                seq![(f as int, a as int)],
                spec_exports_from(d@, pos as int, count - k),
            ));
            match spec_exports_from(d@, pos as int, count - k) {
                Ok(rest) => {
                    assert(prev + (seq![(f as int, a as int)] + rest) =~= pairs_view(out@) + rest);
                },
                Err(_) => {},
            }
        }
    }
    Ok(out)
}

/// Parse the import table into raw records (see `spec_imports_raw`).
fn parse_import_records(d: &Vec<u8>) -> (r: Result<Vec<(u32, u32, u32)>, ArtifactError>)
    ensures
        r matches Ok(v) ==> spec_imports_raw(d@) == Ok::<Seq<(int, int, int)>, ArtifactError>(
            triples_view(v@),
        ),
        r matches Err(e) ==> spec_imports_raw(d@) == Err::<Seq<(int, int, int)>, ArtifactError>(e),
{
    if d.len() < 4 {
        return Err(ArtifactError::BadImportTable);
    }
    let count = be32_at(d, 0);
    let mut out: Vec<(u32, u32, u32)> = Vec::new();
    let mut pos: usize = 4;
    let mut k: u32 = 0;
    while k < count
        invariant
            pos <= d.len(),
            4 <= d.len(),
            k <= count,
            count == be32(d@, 0),
            spec_imports_raw(d@) == res_prepend(
                triples_view(out@),
                spec_imports_from(d@, pos as int, count - k),
            ),
        decreases count - k,
    {
        if d.len() - pos < 12 {
            return Err(ArtifactError::BadImportTable);
        }
        let m = be32_at(d, pos);
        let f = be32_at(d, pos + 4);
        let a = be32_at(d, pos + 8);
        let ghost prev = triples_view(out@);
        let ghost prev_pos = pos as int;
        out.push((m, f, a));
        pos = pos + 12;
        k += 1;
        proof {
            assert(triples_view(out@) =~= prev + seq![(m as int, f as int, a as int)]);
            assert(spec_imports_from(d@, prev_pos, count - (k - 1)) == res_prepend(
                seq![(m as int, f as int, a as int)],
                spec_imports_from(d@, pos as int, count - k),
            ));
            match spec_imports_from(d@, pos as int, count - k) {
                Ok(rest) => {
                    assert(prev + (seq![(m as int, f as int, a as int)] + rest) =~= triples_view(
                        out@,
                    ) + rest);
                },
                Err(_) => {},
            }
        }
    }
    Ok(out)
}

/// Relies on std's `String::from_utf8`: succeeds exactly on valid UTF-8 and
/// returns the string those bytes encode.
#[verifier::external_body]
pub(crate) fn bytes_to_string(b: &Vec<u8>) -> (r: Option<String>)
    ensures
        r is Some <==> valid_utf8(b@),
        r matches Some(s) ==> s@ == decode_utf8(b@) && vstd::utf8::encode_utf8(s@) == b@,
{
    String::from_utf8(b.clone()).ok()
}

/// Decode every raw atom name from UTF-8; any invalid name fails the table.
fn names_to_strings(raw: &Vec<Vec<u8>>) -> (r: Result<Vec<String>, ArtifactError>)
    ensures
        r matches Ok(v) ==> all_utf8(raw.deep_view()) && v.deep_view() == decoded_names(
            raw.deep_view(),
        ),
        r matches Err(e) ==> !all_utf8(raw.deep_view()) && e == ArtifactError::AtomNameNotUtf8,
{
    let mut out: Vec<String> = Vec::new();
    let mut i: usize = 0;
    while i < raw.len()
        invariant
            i <= raw.len(),
            out.len() == i,
            forall|j: int| 0 <= j < i ==> valid_utf8(#[trigger] raw.deep_view()[j]),
            forall|j: int|
                0 <= j < i ==> #[trigger] out.deep_view()[j] == decode_utf8(raw.deep_view()[j]),
        decreases raw.len() - i,
    {
        proof {
            assert(raw.deep_view()[i as int] == raw@[i as int]@);
        }
        match bytes_to_string(&raw[i]) {
            Some(s) => {
                let ghost prev_vec = out;
                let ghost s_snap = s;
                out.push(s);
                proof {
                    lemma_vec_deep_view_push(prev_vec, out, s_snap);
                }
            },
            None => {
                return Err(ArtifactError::AtomNameNotUtf8);
            },
        }
        i += 1;
    }
    proof {
        assert(out.deep_view() =~= decoded_names(raw.deep_view()));
    }
    Ok(out)
}

/// Resolve raw export records: each 1-based local function index must name
/// an atom; the arity is kept as read.
pub open spec fn spec_resolve_exports(raw: Seq<(int, int)>, names: Seq<Seq<char>>) -> Result<
    Seq<(Seq<char>, u32)>,
    ArtifactError,
>
    decreases raw.len(),
{
    if raw.len() == 0 {
        Ok(Seq::empty())
    } else {
        let fi = raw.first().0;
        let ar = raw.first().1;
        if !(1 <= fi <= names.len()) {
            Err(ArtifactError::BadAtomIndex)
        } else {
            match spec_resolve_exports(raw.drop_first(), names) {
                Err(e) => Err(e),
                Ok(rest) => Ok(seq![(names[fi - 1], ar as u32)] + rest),
            }
        }
    }
}

/// Resolve raw import records: the local module index and then the local
/// function index must name atoms.
pub open spec fn spec_resolve_imports(raw: Seq<(int, int, int)>, names: Seq<Seq<char>>) -> Result<
    Seq<(Seq<char>, Seq<char>, u32)>,
    ArtifactError,
>
    decreases raw.len(),
{
    if raw.len() == 0 {
        Ok(Seq::empty())
    } else {
        let mi = raw.first().0;
        let fi = raw.first().1;
        let ar = raw.first().2;
        if !(1 <= mi <= names.len()) {
            Err(ArtifactError::BadAtomIndex)
        } else if !(1 <= fi <= names.len()) {
            Err(ArtifactError::BadAtomIndex)
        } else {
            match spec_resolve_imports(raw.drop_first(), names) {
                Err(e) => Err(e),
                Ok(rest) => Ok(seq![(names[mi - 1], names[fi - 1], ar as u32)] + rest),
            }
        }
    }
}

fn resolve_exports(raw: &Vec<(u32, u32)>, names: &Vec<String>) -> (r: Result<
    Vec<(String, u32)>,
    ArtifactError,
>)
    ensures
        r matches Ok(v) ==> spec_resolve_exports(pairs_view(raw@), names.deep_view()) == Ok::<
            Seq<(Seq<char>, u32)>,
            ArtifactError,
        >(v.deep_view()),
        r matches Err(e) ==> spec_resolve_exports(pairs_view(raw@), names.deep_view()) == Err::<
            Seq<(Seq<char>, u32)>,
            ArtifactError,
        >(e),
{
    let ghost rv = pairs_view(raw@);
    let ghost nv = names.deep_view();
    let mut out: Vec<(String, u32)> = Vec::new();
    let mut i: usize = 0;
    proof {
        assert(rv.skip(0) =~= rv);
    }
    while i < raw.len()
        invariant
            i <= raw.len(),
            rv == pairs_view(raw@),
            nv == names.deep_view(),
            spec_resolve_exports(rv, nv) == res_prepend(
                out.deep_view(),
                spec_resolve_exports(rv.skip(i as int), nv),
            ),
        decreases raw.len() - i,
    {
        let fi = raw[i].0;
        let ar = raw[i].1;
        proof {
            assert(rv.skip(i as int).first() == rv[i as int]);
            assert(rv[i as int] == (raw@[i as int].0 as int, raw@[i as int].1 as int));
        }
        if fi == 0 || fi as usize > names.len() {
            return Err(ArtifactError::BadAtomIndex);
        }
        let ghost prev_vec = out;
        let ghost prev = out.deep_view();
        let s = names[fi as usize - 1].clone();
        let ghost el = (s, ar);
        out.push((s, ar));
        i += 1;
        proof {
            lemma_vec_deep_view_push(prev_vec, out, el);
            assert(el.deep_view() == (nv[fi as int - 1], ar));
            assert(rv.skip(i - 1).drop_first() =~= rv.skip(i as int));
            assert(spec_resolve_exports(rv.skip(i - 1), nv) == res_prepend(
                seq![(nv[fi as int - 1], ar)],
                spec_resolve_exports(rv.skip(i as int), nv),
            ));
            match spec_resolve_exports(rv.skip(i as int), nv) {
                Ok(rest) => {
                    assert(prev + (seq![(nv[fi as int - 1], ar)] + rest) =~= out.deep_view()
                        + rest);
                },
                Err(_) => {},
            }
        }
    }
    proof {
        assert(rv.skip(raw.len() as int) =~= Seq::<(int, int)>::empty());
        assert(out.deep_view() + Seq::<(Seq<char>, u32)>::empty() =~= out.deep_view());
    }
    Ok(out)
}

fn resolve_imports(raw: &Vec<(u32, u32, u32)>, names: &Vec<String>) -> (r: Result<
    Vec<(String, String, u32)>,
    ArtifactError,
>)
    ensures
        r matches Ok(v) ==> spec_resolve_imports(triples_view(raw@), names.deep_view()) == Ok::<
            Seq<(Seq<char>, Seq<char>, u32)>,
            ArtifactError,
        >(v.deep_view()),
        r matches Err(e) ==> spec_resolve_imports(triples_view(raw@), names.deep_view()) == Err::<
            Seq<(Seq<char>, Seq<char>, u32)>,
            ArtifactError,
        >(e),
{
    let ghost rv = triples_view(raw@);
    let ghost nv = names.deep_view();
    let mut out: Vec<(String, String, u32)> = Vec::new();
    let mut i: usize = 0;
    proof {
        assert(rv.skip(0) =~= rv);
    }
    while i < raw.len()
        invariant
            i <= raw.len(),
            rv == triples_view(raw@),
            nv == names.deep_view(),
            spec_resolve_imports(rv, nv) == res_prepend(
                out.deep_view(),
                spec_resolve_imports(rv.skip(i as int), nv),
            ),
        decreases raw.len() - i,
    {
        let mi = raw[i].0;
        let fi = raw[i].1;
        let ar = raw[i].2;
        proof {
            assert(rv.skip(i as int).first() == rv[i as int]);
            assert(rv[i as int] == (
                raw@[i as int].0 as int,
                raw@[i as int].1 as int,
                raw@[i as int].2 as int,
            ));
        }
        if mi == 0 || mi as usize > names.len() {
            return Err(ArtifactError::BadAtomIndex);
        }
        if fi == 0 || fi as usize > names.len() {
            return Err(ArtifactError::BadAtomIndex);
        }
        let ghost prev_vec = out;
        let ghost prev = out.deep_view();
        let sm = names[mi as usize - 1].clone();
        let sf = names[fi as usize - 1].clone();
        let ghost el = (sm, sf, ar);
        out.push((sm, sf, ar));
        i += 1;
        proof {
            lemma_vec_deep_view_push(prev_vec, out, el);
            assert(el.deep_view() == (nv[mi as int - 1], nv[fi as int - 1], ar));
            assert(rv.skip(i - 1).drop_first() =~= rv.skip(i as int));
            assert(spec_resolve_imports(rv.skip(i - 1), nv) == res_prepend(
                seq![(nv[mi as int - 1], nv[fi as int - 1], ar)],
                spec_resolve_imports(rv.skip(i as int), nv),
            ));
            match spec_resolve_imports(rv.skip(i as int), nv) {
                Ok(rest) => {
                    assert(prev + (seq![(nv[mi as int - 1], nv[fi as int - 1], ar)] + rest)
                        =~= out.deep_view() + rest);
                },
                Err(_) => {},
            }
        }
    }
    proof {
        assert(rv.skip(raw.len() as int) =~= Seq::<(int, int, int)>::empty());
        assert(out.deep_view() + Seq::<(Seq<char>, Seq<char>, u32)>::empty() =~= out.deep_view());
    }
    Ok(out)
}

/// The position of the first entry keyed `m` at or after `i`, or -1.
pub open spec fn key_index_from(
    acc: Seq<(Seq<char>, Seq<(Seq<char>, u32)>)>,
    m: Seq<char>,
    i: int,
) -> int
    decreases acc.len() - i,
{
    if i < 0 || i >= acc.len() {
        -1
    } else if acc[i].0 == m {
        i
    } else {
        key_index_from(acc, m, i + 1)
    }
}

/// Add one (function, arity) reference under imported module `m`: appended
/// to `m`'s entry if one exists, else a new entry at the end.
pub open spec fn group_add(
    acc: Seq<(Seq<char>, Seq<(Seq<char>, u32)>)>,
    m: Seq<char>,
    f: (Seq<char>, u32),
) -> Seq<(Seq<char>, Seq<(Seq<char>, u32)>)> {
    let k = key_index_from(acc, m, 0);
    if k < 0 {
        acc.push((m, seq![f]))
    } else {
        acc.update(k, (m, acc[k].1.push(f)))
    }
}

/// Group resolved import references by imported module, keeping both the
/// first-appearance order of modules and the order of references within one.
pub open spec fn group_imports(items: Seq<(Seq<char>, Seq<char>, u32)>) -> Seq<
    (Seq<char>, Seq<(Seq<char>, u32)>),
>
    decreases items.len(),
{
    if items.len() == 0 {
        Seq::empty()
    } else {
        group_add(
            group_imports(items.drop_last()),
            items.last().0,
            (items.last().1, items.last().2),
        )
    }
}

/// Find the entry keyed by `m`, as `key_index_from` sees the grouped list
/// (the list's length standing for "no entry").
fn find_key(out: &Vec<(String, Vec<(String, u32)>)>, m: &String) -> (r: usize)
    ensures
        r <= out.len(),
        r < out.len() ==> key_index_from(out.deep_view(), m@, 0) == r && out.deep_view()[
            r as int
        ].0 == m@,
        r == out.len() ==> key_index_from(out.deep_view(), m@, 0) == -1,
{
    let ghost dv = out.deep_view();
    let mut k: usize = 0;
    while k < out.len()
        invariant
            k <= out.len(),
            dv == out.deep_view(),
            key_index_from(dv, m@, 0) == key_index_from(dv, m@, k as int),
        decreases out.len() - k,
    {
        proof {
            assert(dv[k as int] == (out@[k as int].0@, out@[k as int].1.deep_view()));
        }
        if out[k].0 == *m {
            return k;
        }
        k += 1;
    }
    out.len()
}

fn group_import_items(items: &Vec<(String, String, u32)>) -> (r: Vec<
    (String, Vec<(String, u32)>),
>)
    ensures
        r.deep_view() == group_imports(items.deep_view()),
{
    let ghost iv = items.deep_view();
    let mut out: Vec<(String, Vec<(String, u32)>)> = Vec::new();
    let mut i: usize = 0;
    proof {
        assert(iv.take(0) =~= Seq::<(Seq<char>, Seq<char>, u32)>::empty());
    }
    while i < items.len()
        invariant
            i <= items.len(),
            iv == items.deep_view(),
            out.deep_view() == group_imports(iv.take(i as int)),
        decreases items.len() - i,
    {
        let ghost dv = out.deep_view();
        let ghost m_dv = iv[i as int].0;
        let ghost f_el = (iv[i as int].1, iv[i as int].2);
        proof {
            assert(iv[i as int] == (items@[i as int].0@, items@[i as int].1@, items@[i as int].2));
        }
        let n = out.len();
        let found = find_key(&out, &items[i].0);
        let fa = (items[i].1.clone(), items[i].2);
        proof {
            assert(fa.deep_view() == f_el);
        }
        if found < n {
            let ghost out_pre = out@;
            let mut e = out.remove(found);
            let ghost e_vec = e.1;
            let ghost fa_snap = fa;
            e.1.push(fa);
            proof {
                lemma_vec_deep_view_push(e_vec, e.1, fa_snap);
            }
            let ghost e_final = e;
            out.insert(found, e);
            proof {
                assert(out@ =~= out_pre.update(found as int, e_final));
                assert(e_vec == out_pre[found as int].1);
                assert(e_final.0 == out_pre[found as int].0);
                assert(dv[found as int] == (out_pre[found as int].0@, out_pre[found
                    as int].1.deep_view()));
                assert(e_final.deep_view() == (m_dv, dv[found as int].1.push(f_el)));
                assert(out.deep_view() =~= dv.update(found as int, (m_dv, dv[found as int].1.push(
                    f_el,
                ))));
                assert(out.deep_view() == group_add(dv, m_dv, f_el));
            }
        } else {
            proof {
                assert(key_index_from(dv, m_dv, 0) == -1);
            }
            let mut refs: Vec<(String, u32)> = Vec::new();
            refs.push(fa);
            let ghost prev_vec = out;
            let entry = (items[i].0.clone(), refs);
            let ghost entry_snap = entry;
            out.push(entry);
            proof {
                assert(entry_snap.1.deep_view() =~= seq![f_el]);
                lemma_vec_deep_view_push(prev_vec, out, entry_snap);
                assert(entry_snap.deep_view() == (m_dv, seq![f_el]));
                assert(out.deep_view() == group_add(dv, m_dv, f_el));
            }
        }
        i += 1;
        proof {
            assert(iv.take(i as int).drop_last() =~= iv.take(i - 1));
            assert(iv.take(i as int).last() == iv[i - 1]);
            assert(group_imports(iv.take(i as int)) == group_add(
                group_imports(iv.take(i - 1)),
                m_dv,
                f_el,
            ));
        }
    }
    proof {
        assert(iv.take(items.len() as int) =~= iv);
    }
    out
}

/// The decoded content of one module artifact, at the level of names.
#[verifier::ext_equal]
pub struct ModuleNames {
    /// The module's own name: by convention the first atom of its table.
    pub name: Seq<char>,
    /// For each imported module, in first-appearance order, the (function,
    /// arity) references this module makes to it, in table order.
    pub imports: Seq<(Seq<char>, Seq<(Seq<char>, u32)>)>,
    /// The (function, arity) pairs this module exposes, in table order,
    /// duplicates kept.
    pub exports: Seq<(Seq<char>, u32)>,
}

/// What decoding an artifact yields: the last atom, export and import
/// chunks of a well-formed container, their tables parsed and every local
/// index resolved to its atom's name.
pub open spec fn spec_module(b: Seq<u8>) -> Result<ModuleNames, ArtifactError> {
    match spec_payload(b) {
        Err(e) => Err(e),
        Ok(p) => match spec_chunks_from(p, 0) {
            Err(e) => Err(e),
            Ok(chunks) => match find_last(chunks, ATOM_TAG as int, ATU8_TAG as int) {
                None => Err(ArtifactError::MissingAtomChunk),
                Some(ad) => match find_last(chunks, EXPT_TAG as int, EXPT_TAG as int) {
                    None => Err(ArtifactError::MissingExportChunk),
                    Some(ed) => match find_last(chunks, IMPT_TAG as int, IMPT_TAG as int) {
                        None => Err(ArtifactError::MissingImportChunk),
                        Some(imd) => spec_module_tables(ad, ed, imd),
                    },
                },
            },
        },
    }
}

/// Decoding of the three required tables, given their chunk data.
pub open spec fn spec_module_tables(ad: Seq<u8>, ed: Seq<u8>, imd: Seq<u8>) -> Result<
    ModuleNames,
    ArtifactError,
> {
    match spec_atom_names(ad) {
        Err(e) => Err(e),
        Ok(nb) => if !all_utf8(nb) {
            Err(ArtifactError::AtomNameNotUtf8)
        } else {
            let names = decoded_names(nb);
            if names.len() == 0 {
                Err(ArtifactError::EmptyAtomTable)
            } else {
                match spec_exports_raw(ed) {
                    Err(e) => Err(e),
                    Ok(exraw) => match spec_resolve_exports(exraw, names) {
                        Err(e) => Err(e),
                        Ok(exports) => match spec_imports_raw(imd) {
                            Err(e) => Err(e),
                            Ok(imraw) => match spec_resolve_imports(imraw, names) {
                                Err(e) => Err(e),
                                Ok(items) => Ok(
                                    ModuleNames {
                                        name: names[0],
                                        imports: group_imports(items),
                                        exports,
                                    },
                                ),
                            },
                        },
                    },
                }
            }
        },
    }
}

/// One decoded module: its own name, its imports grouped by imported module
/// in first-appearance order, and its exports in table order.
#[derive(Debug)]
pub struct StringModule {
    pub name: String,
    pub imports: Vec<(String, Vec<(String, u32)>)>,
    pub exports: Vec<(String, u32)>,
}

impl StringModule {
    /// The names this module holds.
    pub open spec fn names(&self) -> ModuleNames {
        ModuleNames {
            name: self.name@,
            imports: self.imports.deep_view(),
            exports: self.exports.deep_view(),
        }
    }
}

/// Decode one compiled module artifact (see `spec_module`).
pub fn parse_module(bytes: &Vec<u8>) -> (r: Result<StringModule, ArtifactError>)
    ensures
        r matches Ok(sm) ==> spec_module(bytes@) == Ok::<ModuleNames, ArtifactError>(sm.names()),
        r matches Err(e) ==> spec_module(bytes@) == Err::<ModuleNames, ArtifactError>(e),
{
    let payload = match parse_payload(bytes) {
        Ok(p) => p,
        Err(e) => {
            return Err(e);
        },
    };
    let chunks = match parse_chunks(&payload) {
        Ok(c) => c,
        Err(e) => {
            return Err(e);
        },
    };
    let ai = match find_last_idx(&chunks, ATOM_TAG, ATU8_TAG) {
        Some(i) => i,
        None => {
            return Err(ArtifactError::MissingAtomChunk);
        },
    };
    let ei = match find_last_idx(&chunks, EXPT_TAG, EXPT_TAG) {
        Some(i) => i,
        None => {
            return Err(ArtifactError::MissingExportChunk);
        },
    };
    let ii = match find_last_idx(&chunks, IMPT_TAG, IMPT_TAG) {
        Some(i) => i,
        None => {
            return Err(ArtifactError::MissingImportChunk);
        },
    };
    let raw_names = match parse_atom_names(&chunks[ai].1) {
        Ok(v) => v,
        Err(e) => {
            return Err(e);
        },
    };
    let names = match names_to_strings(&raw_names) {
        Ok(v) => v,
        Err(e) => {
            return Err(e);
        },
    };
    if names.is_empty() {
        return Err(ArtifactError::EmptyAtomTable);
    }
    let ex_raw = match parse_export_records(&chunks[ei].1) {
        Ok(v) => v,
        Err(e) => {
            return Err(e);
        },
    };
    let exports = match resolve_exports(&ex_raw, &names) {
        Ok(v) => v,
        Err(e) => {
            return Err(e);
        },
    };
    let im_raw = match parse_import_records(&chunks[ii].1) {
        Ok(v) => v,
        Err(e) => {
            return Err(e);
        },
    };
    let items = match resolve_imports(&im_raw, &names) {
        Ok(v) => v,
        Err(e) => {
            return Err(e);
        },
    };
    let imports = group_import_items(&items);
    let name = names[0].clone();
    Ok(StringModule { name, imports, exports })
}

} // verus!
