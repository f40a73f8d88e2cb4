use vstd::bytes::{
    lemma_auto_spec_u64_to_from_le_bytes, spec_u32_to_le_bytes, spec_u64_from_le_bytes,
    spec_u64_to_le_bytes, u32_to_le_bytes, u64_from_le_bytes, u64_to_le_bytes,
};
use vstd::prelude::*;
use vstd::string::StringSliceAdditionalSpecFns;
use vstd::utf8::encode_utf8;

use crate::editor::chars_of;
use crate::terminal::ends_with;

verus! {

// ---------------------------------------------------------------------------
// Outside types and calls
// ---------------------------------------------------------------------------

/// The error of a base64 decoding.
#[verifier::external_type_specification]
#[verifier::external_body]
pub struct ExDecodeError(base64::DecodeError);

/// The error of an I/O operation (here, of a compressor or decompressor
/// working in memory).
#[verifier::external_type_specification]
#[verifier::external_body]
pub struct ExIoError(std::io::Error);

/// What the standard base64 engine (with padding) writes for some bytes.
pub uninterp spec fn base64_encoded(data: Seq<u8>) -> Seq<char>;

/// What the standard base64 engine reads from some bytes, if they are base64.
pub uninterp spec fn base64_decoded(data: Seq<u8>) -> Option<Seq<u8>>;

/// What a gzip encoder with the default level and header writes for some bytes.
pub uninterp spec fn gzip_compressed(data: Seq<u8>) -> Seq<u8>;

/// What a gzip decoder reads from some bytes, if they are a gzip stream.
pub uninterp spec fn gzip_decompressed(data: Seq<u8>) -> Option<Seq<u8>>;

/// `base64::Engine::encode` with `general_purpose::STANDARD`: the text it
/// writes for `input`, which the same engine decodes back to `input`.
#[verifier::external_body]
pub(crate) fn encode(input: &Vec<u8>) -> (r: String)
    ensures
        r@ == base64_encoded(input@),
        base64_decoded(encode_utf8(r@)) == Some(input@),
{
    base64::Engine::encode(&base64::engine::general_purpose::STANDARD, input)
}

/// `base64::Engine::decode` with `general_purpose::STANDARD`.
#[verifier::external_body]
fn base64_decode(input: &[u8]) -> (r: Result<Vec<u8>, base64::DecodeError>)
    ensures
        match r {
            Ok(v) => base64_decoded(input@) == Some(v@),
            Err(_) => base64_decoded(input@) is None,
        },
{
    base64::Engine::decode(&base64::engine::general_purpose::STANDARD, input)
}

/// A `flate2::write::GzEncoder` over a `Vec` with `Compression::default()`,
/// fed `data` and finished: the gzip stream it writes, which a gzip decoder
/// reads back as `data`. Writing into a `Vec` and compressing never fail,
/// so the result is always `Ok`.
#[verifier::external_body]
fn gzip_compress(data: &[u8]) -> (r: Result<Vec<u8>, std::io::Error>)
    ensures
        r is Ok,
        r matches Ok(v) ==> v@ == gzip_compressed(data@) && gzip_decompressed(v@) == Some(data@),
{
    let mut encoder = flate2::write::GzEncoder::new(Vec::new(), flate2::Compression::default());
    std::io::Write::write_all(&mut encoder, data)?;
    encoder.finish()
}

/// A `flate2::read::GzDecoder` over `data`, read to its end.
#[verifier::external_body]
fn gzip_decompress(data: &[u8]) -> (r: Result<Vec<u8>, std::io::Error>)
    ensures
        match r {
            Ok(v) => gzip_decompressed(data@) == Some(v@),
            Err(_) => gzip_decompressed(data@) is None,
        },
{
    let mut decoder = flate2::read::GzDecoder::new(data);
    let mut out = Vec::new();
    std::io::Read::read_to_end(&mut decoder, &mut out)?;
    Ok(out)
}

// ---------------------------------------------------------------------------
// Cartridge files
// ---------------------------------------------------------------------------

/// Why a cartridge file could not be read.
#[derive(PartialEq, Eq, Structural, Clone, Copy, Debug)]
pub enum CartError {
    /// The file's bytes are no gzip stream.
    Decompress,
}

/// A cartridge file whose name ends in `.r32.txt` holds base64 text.
pub open spec fn is_text_cart(path: Seq<char>) -> bool {
    ends_with(path, ".r32.txt"@)
}

/// Whether the cartridge file at `path` holds base64 text.
pub fn is_text_cart_path(path: &str) -> (r: bool)
    ensures
        r == is_text_cart(path@),
{
    let chars = chars_of(path);
    let suffix = chars_of(".r32.txt");
    crate::terminal::ends_with_chars(&chars, &suffix)
}

/// The bytes of a cartridge file at `path` for the encoded cartridge
/// `encoded`: the gzip stream of it, as base64 text for a text cartridge.
pub open spec fn cart_file(path: Seq<char>, encoded: Seq<u8>) -> Seq<u8> {
    if is_text_cart(path) {
        encode_utf8(base64_encoded(gzip_compressed(encoded)))
    } else {
        gzip_compressed(encoded)
    }
}

/// The encoded cartridge that a cartridge file at `path` holds: base64 text
/// decoded first for a text cartridge, then the gzip stream read.
pub open spec fn cart_payload(path: Seq<char>, file: Seq<u8>) -> Result<Seq<u8>, CartError> {
    let raw = if is_text_cart(path) {
        base64_decoded(file).unwrap()
    } else {
        file
    };
    match gzip_decompressed(raw) {
        Some(v) => Ok(v),
        None => Err(CartError::Decompress),
    }
}

/// The decoding of base64 text that is known to be base64.
pub fn decode(input: &Vec<u8>) -> (r: Vec<u8>)
    requires
        base64_decoded(input@) is Some,
    ensures
        Some(r@) == base64_decoded(input@),
{
    match base64_decode(input.as_slice()) {
        Ok(v) => v,
        Err(_) => {
            assert(false);
            Vec::new()
        },
    }
}

/// The bytes to write to the cartridge file at `bin_path` for the encoded
/// cartridge `encoded`. What is written reads back as what was encoded.
pub fn write_cart_bytes(bin_path: &str, encoded: &Vec<u8>) -> (r: Vec<u8>)
    ensures
        r@ == cart_file(bin_path@, encoded@),
        is_text_cart(bin_path@) ==> base64_decoded(r@) is Some,
        cart_payload(bin_path@, r@) == Ok::<Seq<u8>, CartError>(encoded@),
{
    let compressed = match gzip_compress(encoded.as_slice()) {
        Ok(c) => c,
        Err(_) => {
            assert(false);
            Vec::new()
        },
    };
    if is_text_cart_path(bin_path) {
        let text = encode(&compressed);
        let bytes = text.as_str().as_bytes();
        let mut out: Vec<u8> = Vec::new();
        let mut i: usize = 0;
        while i < bytes.len()
            invariant
                i <= bytes@.len(),
                out@ == bytes@.take(i as int),
            decreases bytes@.len() - i,
        {
            out.push(bytes[i]);
            i += 1;
            assert(out@ =~= bytes@.take(i as int));
        }
        assert(bytes@.take(bytes@.len() as int) =~= bytes@);
        out
    } else {
        compressed
    }
}

/// The encoded cartridge in the cartridge file at `bin_path` with the bytes
/// `file`. A text cartridge must hold base64 text.
pub fn read_cart_bytes(bin_path: &str, file: &Vec<u8>) -> (r: Result<Vec<u8>, CartError>)
    requires
        is_text_cart(bin_path@) ==> base64_decoded(file@) is Some,
    ensures
        match r {
            Ok(v) => cart_payload(bin_path@, file@) == Ok::<Seq<u8>, CartError>(v@),
            Err(e) => cart_payload(bin_path@, file@) == Err::<Seq<u8>, CartError>(e),
        },
{
    let text = is_text_cart_path(bin_path);
    let decoded;
    let raw = if text {
        decoded = decode(file);
        decoded.as_slice()
    } else {
        file.as_slice()
    };
    match gzip_decompress(raw) {
        Ok(v) => Ok(v),
        Err(_) => Err(CartError::Decompress),
    }
}

/// The encoded cartridge in a cartridge file, or `None` for a text cartridge
/// that holds no base64 text.
pub fn read_cart_bytes_checked(bin_path: &str, file: &Vec<u8>) -> (r: Option<Result<Vec<u8>, CartError>>)
    ensures
        r is None <==> is_text_cart(bin_path@) && base64_decoded(file@) is None,
        r matches Some(Ok(v)) ==> cart_payload(bin_path@, file@) == Ok::<Seq<u8>, CartError>(v@),
        r matches Some(Err(e)) ==> cart_payload(bin_path@, file@) == Err::<Seq<u8>, CartError>(e),
{
    if is_text_cart_path(bin_path) {
        match base64_decode(file.as_slice()) {
            Err(_) => {
                return None;
            },
            Ok(_) => {},
        }
    }
    Some(read_cart_bytes(bin_path, file))
}

// ---------------------------------------------------------------------------
// Standalone executables: a cartridge appended to the console's program
// ---------------------------------------------------------------------------

/// The mark that ends an executable with a cartridge: `R32X`.
pub open spec fn trailer_magic() -> Seq<u8> {
    seq![0x52u8, 0x33u8, 0x32u8, 0x58u8]
}

/// An executable with a cartridge: the program, the cartridge, the mark, the
/// format version 1 and the cartridge's length, both little-endian.
pub open spec fn exported(exe: Seq<u8>, cart: Seq<u8>) -> Seq<u8> {
    exe + cart + trailer_magic() + spec_u32_to_le_bytes(1u32) + spec_u64_to_le_bytes(cart.len() as u64)
}

/// Why the end of an executable could not be read as a cartridge's trailer
/// (where the console's own code fails).
#[derive(PartialEq, Eq, Structural, Clone, Copy, Debug)]
pub enum TrailerError {
    /// Shorter than a trailer.
    TooShort,
    /// The trailer gives a cartridge longer than what precedes it.
    TooLong,
}

/// The cartridge an executable carries: none when it does not end with the
/// mark and its trailer, otherwise the bytes before the trailer, as many as
/// the trailer says.
pub open spec fn embedded(b: Seq<u8>) -> Result<Option<Seq<u8>>, TrailerError> {
    let n = b.len() as int;
    if n < 16 {
        Err(TrailerError::TooShort)
    } else if b.subrange(n - 16, n - 12) != trailer_magic() {
        Ok(None)
    } else {
        let size = spec_u64_from_le_bytes(b.subrange(n - 8, n)) as int;
        if size > n - 16 {
            Err(TrailerError::TooLong)
        } else {
            Ok(Some(b.subrange(n - 16 - size, n - 16)))
        }
    }
}

/// Appends `b` to `out`.
fn append_bytes(out: &mut Vec<u8>, b: &[u8])
    ensures
        final(out)@ == old(out)@ + b@,
{
    let mut i: usize = 0;
    while i < b.len()
        invariant
            i <= b@.len(),
            out@ == old(out)@ + b@.take(i as int),
        decreases b@.len() - i,
    {
        out.push(b[i]);
        i += 1;
        assert(out@ =~= old(out)@ + b@.take(i as int));
    }
    assert(b@.take(b@.len() as int) =~= b@);
}

/// The cartridge bytes that go into an executable for the cartridge file at
/// `cart_path`: its bytes, decoded from base64 text for a text cartridge.
pub open spec fn exported_cart(cart_path: Seq<char>, cart_file: Seq<u8>) -> Seq<u8> {
    if is_text_cart(cart_path) {
        base64_decoded(cart_file).unwrap()
    } else {
        cart_file
    }
}

/// A standalone executable: the console's program `exe` with the cartridge
/// file at `cart_path` (bytes `cart_file`) appended and marked.
pub fn export_image(exe: &Vec<u8>, cart_path: &str, cart_file: &Vec<u8>) -> (r: Vec<u8>)
    requires
        is_text_cart(cart_path@) ==> base64_decoded(cart_file@) is Some,
    ensures
        r@ == exported(exe@, exported_cart(cart_path@, cart_file@)),
{
    let decoded;
    let cart: &Vec<u8> = if is_text_cart_path(cart_path) {
        decoded = decode(cart_file);
        &decoded
    } else {
        cart_file
    };
    let mut out: Vec<u8> = Vec::new();
    append_bytes(&mut out, exe.as_slice());
    append_bytes(&mut out, cart.as_slice());
    let mut magic: Vec<u8> = Vec::new();
    magic.push(0x52u8);
    magic.push(0x33u8);
    magic.push(0x32u8);
    magic.push(0x58u8);
    append_bytes(&mut out, magic.as_slice());
    let version = u32_to_le_bytes(1u32);
    append_bytes(&mut out, version.as_slice());
    let size = u64_to_le_bytes(cart.len() as u64);
    append_bytes(&mut out, size.as_slice());
    assert(magic@ =~= trailer_magic());
    assert(out@ =~= exported(exe@, cart@));
    out
}

/// A standalone executable, or `None` for a text cartridge file that holds
/// no base64 text.
pub fn export_image_checked(exe: &Vec<u8>, cart_path: &str, cart_file: &Vec<u8>) -> (r: Option<Vec<u8>>)
    ensures
        r is None <==> is_text_cart(cart_path@) && base64_decoded(cart_file@) is None,
        r matches Some(v) ==> v@ == exported(exe@, exported_cart(cart_path@, cart_file@)),
{
    if is_text_cart_path(cart_path) {
        match base64_decode(cart_file.as_slice()) {
            Err(_) => {
                return None;
            },
            Ok(_) => {},
        }
    }
    Some(export_image(exe, cart_path, cart_file))
}

/// The cartridge that the executable `exe` carries, if any.
pub fn embedded_cart(exe: &Vec<u8>) -> (r: Result<Option<Vec<u8>>, TrailerError>)
    ensures
        match r {
            Ok(Some(v)) => embedded(exe@) == Ok::<Option<Seq<u8>>, TrailerError>(Some(v@)),
            Ok(None) => embedded(exe@) == Ok::<Option<Seq<u8>>, TrailerError>(None),
            Err(e) => embedded(exe@) == Err::<Option<Seq<u8>>, TrailerError>(e),
        },
{
    let n = exe.len();
    if n < 16 {
        return Err(TrailerError::TooShort);
    }
    let magic = crate::terminal::slice_bytes(exe.as_slice(), n - 16, n - 12);
    if !(magic[0] == 0x52u8 && magic[1] == 0x33u8 && magic[2] == 0x32u8 && magic[3] == 0x58u8) {
        assert(magic@ != trailer_magic()) by {
            if magic@ == trailer_magic() {
                assert(magic@[0] == 0x52u8);
            }
        }
        return Ok(None);
    }
    assert(magic@ =~= trailer_magic());
    let size_bytes = crate::terminal::slice_bytes(exe.as_slice(), n - 8, n);
    let size = u64_from_le_bytes(size_bytes.as_slice());
    if size > (n - 16) as u64 {
        return Err(TrailerError::TooLong);
    }
    let s = size as usize;
    Ok(Some(crate::terminal::slice_bytes(exe.as_slice(), n - 16 - s, n - 16)))
}

/// An executable made with a cartridge gives back that cartridge.
pub proof fn law_export_then_embedded(exe: Seq<u8>, cart: Seq<u8>)
    requires
        cart.len() <= u64::MAX,
    ensures
        embedded(exported(exe, cart)) == Ok::<Option<Seq<u8>>, TrailerError>(Some(cart)),
{
    lemma_auto_spec_u64_to_from_le_bytes();
    vstd::bytes::lemma_auto_spec_u32_to_from_le_bytes();
    let b = exported(exe, cart);
    let n = b.len() as int;
    let m = exe.len() + cart.len();
    assert(spec_u32_to_le_bytes(1u32).len() == 4);
    assert(spec_u64_to_le_bytes(cart.len() as u64).len() == 8);
    assert(n == m + 16);
    assert(b.subrange(n - 16, n - 12) =~= trailer_magic());
    assert(b.subrange(n - 8, n) =~= spec_u64_to_le_bytes(cart.len() as u64));
    assert(b.subrange(n - 16 - cart.len(), n - 16) =~= cart);
}

} // verus!
