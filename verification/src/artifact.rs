//! The shipped dataset's framing: a magic number naming the format, then the
//! payload, the whole compressed with gzip. Encoding the payload itself is
//! serde's work and is done around the library.

use vstd::prelude::*;

verus! {

/// The magic bytes and format version at the head of an uncompressed
/// artifact: `HANZID02`. Version `02` added the word list; a stale artifact
/// fails on the magic rather than decoding into nonsense, because the payload
/// encoding does not describe itself.
pub open spec fn artifact_magic() -> Seq<u8> {
    seq![72u8, 65u8, 78u8, 90u8, 73u8, 68u8, 48u8, 50u8]
}

/// How long the magic is.
pub const MAGIC_LEN: usize = 8;

/// The magic, as bytes to write.
pub fn magic() -> (r: Vec<u8>)
    ensures
        r@ == artifact_magic(),
{
    let mut r: Vec<u8> = Vec::new();
    r.push(72);
    r.push(65);
    r.push(78);
    r.push(90);
    r.push(73);
    r.push(68);
    r.push(48);
    r.push(50);
    assert(r@ =~= artifact_magic());
    r
}

/// What gzip decoding makes of `bytes`: the data of the stream they begin
/// with, or `None` when they are not a well-formed gzip stream. It depends on
/// the bytes alone.
pub uninterp spec fn gunzipped(bytes: Seq<u8>) -> Option<Seq<u8>>;

#[verifier::external_type_specification]
#[verifier::external_body]
pub struct ExIoError(std::io::Error);

/// flate2's `read::GzDecoder` over `bytes`, read to the end with
/// `Read::read_to_end`. The contract claims that it succeeds exactly when the
/// bytes decode, and then gives the decoded data; what the error says is left
/// unsaid.
#[verifier::external_body]
fn gunzip(bytes: &[u8]) -> (r: Result<Vec<u8>, std::io::Error>)
    ensures
        match r {
            Ok(v) => gunzipped(bytes@) == Some(v@),
            Err(_) => gunzipped(bytes@) is None,
        },
{
    let mut decoder = flate2::read::GzDecoder::new(bytes);
    let mut raw = Vec::new();
    match std::io::Read::read_to_end(&mut decoder, &mut raw) {
        Ok(_) => Ok(raw),
        Err(e) => Err(e),
    }
}

/// flate2's `write::GzEncoder` at `Compression::best()` over an in-memory
/// buffer: `write_all` of `bytes`, then `finish`. The contract claims that it
/// succeeds, since writing into a `Vec` never fails and the deflate stream is
/// used only as intended, and that what it writes decodes back to `bytes`;
/// which bytes the encoder chooses is left unsaid.
#[verifier::external_body]
fn gzip(bytes: &[u8]) -> (r: Result<Vec<u8>, std::io::Error>)
    ensures
        r is Ok,
        r matches Ok(z) ==> gunzipped(z@) == Some(bytes@),
{
    let mut encoder = flate2::write::GzEncoder::new(Vec::new(), flate2::Compression::best());
    match std::io::Write::write_all(&mut encoder, bytes) {
        Ok(()) => encoder.finish(),
        Err(e) => Err(e),
    }
}

/// Why an artifact could not be opened.
pub enum ArtifactError {
    /// The bytes are not a gzip stream, or the stream is corrupt; the
    /// decoder's own error.
    Unreadable(std::io::Error),
    /// The data does not begin with this format's magic.
    BadMagic,
}

/// `Display` of a `std::io::Error`, through `to_string`: the text the error
/// carries. Nothing is claimed of it: the error is opaque here, and its text is
/// whatever the decoder put in it.
#[verifier::external_body]
fn io_error_text(e: &std::io::Error) -> String {
    e.to_string()
}

impl ArtifactError {
    /// The sentence that reports a bad magic.
    pub open spec fn bad_magic_message() -> Seq<char> {
        "not a hanzi dataset artifact (bad or outdated magic); re-run `prepare-data`"@
    }

    /// What to tell whoever supplied the artifact: for an unreadable stream
    /// the decoder's own error text, handed on as it is, and for a bad magic
    /// the sentence that says to prepare the data again.
    pub fn message(&self) -> (r: String)
        ensures
            self is BadMagic ==> r@ == Self::bad_magic_message(),
    {
        match self {
            ArtifactError::Unreadable(e) => io_error_text(e),
            ArtifactError::BadMagic => String::from_str(
                "not a hanzi dataset artifact (bad or outdated magic); re-run `prepare-data`",
            ),
        }
    }
}

/// The data starts with the magic.
pub open spec fn has_magic(raw: Seq<u8>) -> bool {
    raw.len() >= 8 && raw.take(8) == artifact_magic()
}

/// The payload of decompressed artifact data: what follows the magic, or
/// `None` when the magic is not there.
pub open spec fn payload_in(raw: Seq<u8>) -> Option<Seq<u8>> {
    if has_magic(raw) {
        Some(raw.skip(8))
    } else {
        None
    }
}

/// The payload of decompressed artifact data, when it begins with the magic.
pub fn payload_of(raw: &[u8]) -> (r: Option<Vec<u8>>)
    ensures
        match payload_in(raw@) {
            Some(p) => r matches Some(v) && v@ == p,
            None => r is None,
        },
{
    let m = magic();
    if raw.len() < MAGIC_LEN {
        return None;
    }
    let mut i: usize = 0;
    while i < MAGIC_LEN
        invariant
            i <= MAGIC_LEN,
            raw.len() >= MAGIC_LEN,
            m@ == artifact_magic(),
            forall|j: int| 0 <= j < i ==> raw@[j] == m@[j],
        decreases MAGIC_LEN - i,
    {
        if raw[i] != m[i] {
            assert(raw@.take(8)[i as int] != artifact_magic()[i as int]);
            return None;
        }
        i += 1;
    }
    assert(raw@.take(8) =~= artifact_magic());
    let mut out: Vec<u8> = Vec::new();
    let mut k: usize = MAGIC_LEN;
    while k < raw.len()
        invariant
            MAGIC_LEN <= k <= raw.len(),
            out@ == raw@.subrange(8, k as int),
        decreases raw.len() - k,
    {
        out.push(raw[k]);
        assert(out@ =~= raw@.subrange(8, k + 1));
        k += 1;
    }
    assert(raw@.subrange(8, raw.len() as int) =~= raw@.skip(8));
    Some(out)
}

/// What opening `bytes` as an artifact gives: the payload, or why not.
pub open spec fn opened(bytes: Seq<u8>) -> Option<Seq<u8>> {
    match gunzipped(bytes) {
        Some(raw) => payload_in(raw),
        None => None,
    }
}

/// Open a compressed artifact: decompress it, check the magic, and give back
/// the payload that follows.
pub fn unpack_artifact(bytes: &[u8]) -> (r: Result<Vec<u8>, ArtifactError>)
    ensures
        match gunzipped(bytes@) {
            None => r matches Err(ArtifactError::Unreadable(_)),
            Some(raw) => match payload_in(raw) {
                Some(p) => r matches Ok(v) && v@ == p,
                None => r matches Err(ArtifactError::BadMagic),
            },
        },
{
    match gunzip(bytes) {
        Err(e) => Err(ArtifactError::Unreadable(e)),
        Ok(raw) => match payload_of(raw.as_slice()) {
            Some(p) => Ok(p),
            None => Err(ArtifactError::BadMagic),
        },
    }
}

/// Frame and compress a payload as an artifact: the magic, then the payload,
/// gzip-compressed at the best ratio.
pub fn pack_artifact(payload: &[u8]) -> (r: Result<Vec<u8>, std::io::Error>)
    ensures
        r matches Ok(z) && gunzipped(z@) == Some(artifact_magic() + payload@),
{
    let mut raw = magic();
    let mut k: usize = 0;
    while k < payload.len()
        invariant
            k <= payload.len(),
            raw@ == artifact_magic() + payload@.take(k as int),
        decreases payload.len() - k,
    {
        raw.push(payload[k]);
        assert(raw@ =~= artifact_magic() + payload@.take(k + 1));
        k += 1;
    }
    assert(payload@.take(k as int) =~= payload@);
    gzip(raw.as_slice())
}

/// An artifact opens to the payload it was packed from.
pub proof fn law_an_artifact_opens_to_what_was_packed(payload: Seq<u8>, packed: Seq<u8>)
    requires
        gunzipped(packed) == Some(artifact_magic() + payload),
    ensures
        opened(packed) == Some(payload),
{
    let raw = artifact_magic() + payload;
    assert(raw.take(8) =~= artifact_magic());
    assert(raw.skip(8) =~= payload);
}

} // verus!
