//! Loading the descriptor set of a service from where its resource says
//! it is.

use vstd::prelude::*;
use vstd::string::*;
use vstd::utf8::*;
use base64::Engine;
use protobuf::Message;
use sha2::Digest;
use crate::crd::DescriptorSetSource;
use crate::text::str_eq;

verus! {

/// `base64::DecodeError`: why a text is no base64. Nothing is claimed
/// of it; it is only carried.
#[verifier::external_type_specification]
#[verifier::external_body]
pub struct ExDecodeError(base64::DecodeError);

/// `protobuf::descriptor::FileDescriptorSet`: a parsed descriptor set.
/// Nothing is claimed of it; it is only carried.
#[verifier::external_type_specification]
#[verifier::external_body]
pub struct ExFileDescriptorSet(protobuf::descriptor::FileDescriptorSet);

/// The SHA-256 digest of `data`: thirty-two bytes.
pub uninterp spec fn sha256(data: Seq<u8>) -> Seq<u8>;

/// The bytes that a text in standard base64, with padding, writes. `None`
/// where the text is no such base64.
pub uninterp spec fn base64_standard(text: Seq<char>) -> Option<Seq<u8>>;

/// Whether `bytes` can be read as a protobuf `FileDescriptorSet`.
pub uninterp spec fn is_descriptor_set(bytes: Seq<u8>) -> bool;

/// `sha2::Sha256::digest`: the SHA-256 digest of `data`.
#[verifier::external_body]
pub(crate) fn sha256_digest(data: &[u8]) -> (r: [u8; 32])
    ensures
        r@ == sha256(data@),
{
    sha2::Sha256::digest(data).into()
}

/// `base64::Engine::decode` of the engine `BASE64_STANDARD`: the bytes
/// that the text writes, or the error that tells why it writes none.
#[verifier::external_body]
pub(crate) fn base64_decode(text: &str) -> (r: Result<Vec<u8>, base64::DecodeError>)
    ensures
        r is Ok <==> base64_standard(text@) is Some,
        r matches Ok(bytes) ==> Some(bytes@) == base64_standard(text@),
{
    base64::prelude::BASE64_STANDARD.decode(text)
}

/// `protobuf::Message::parse_from_bytes` for `FileDescriptorSet`: the
/// descriptor set that the bytes hold, or the message of the error that
/// tells why they hold none.
#[verifier::external_body]
pub(crate) fn parse_descriptor_set(bytes: &[u8]) -> (r: Result<
    protobuf::descriptor::FileDescriptorSet,
    String,
>)
    ensures
        r is Ok <==> is_descriptor_set(bytes@),
{
    match protobuf::descriptor::FileDescriptorSet::parse_from_bytes(bytes) {
        Ok(set) => Ok(set),
        Err(e) => Err(e.to_string()),
    }
}

/// The hexadecimal digit, in lower case, of a number below sixteen.
pub open spec fn hex_digit(n: u8) -> char {
    if n < 10 {
        (0x30 + n) as char
    } else {
        (0x57 + n) as char
    }
}

/// `data` in hexadecimal, lower case, two digits for each byte.
pub open spec fn hex(data: Seq<u8>) -> Seq<char>
    decreases data.len(),
{
    if data.len() == 0 {
        seq![]
    } else {
        hex(data.drop_last()) + seq![hex_digit(data.last() / 16), hex_digit(data.last() % 16)]
    }
}

/// Writes `data` in hexadecimal, lower case.
pub fn to_hex(data: &[u8]) -> (r: String)
    ensures
        r@ == hex(data@),
{
    let mut out = String::new();
    let mut i: usize = 0;
    proof {
        assert(data@.subrange(0, 0) =~= Seq::<u8>::empty());
    }
    while i < data.len()
        invariant
            i <= data.len(),
            out@ == hex(data@.subrange(0, i as int)),
        decreases data.len() - i,
    {
        let b = data[i];
        let high = hex_char(b / 16);
        let low = hex_char(b % 16);
        let ghost before = out@;
        out.push(high);
        out.push(low);
        proof {
            assert(data@.subrange(0, i + 1).drop_last() =~= data@.subrange(0, i as int));
            assert(data@.subrange(0, i + 1).last() == b);
            assert(out@ =~= before + seq![hex_digit(b / 16), hex_digit(b % 16)]);
        }
        i += 1;
    }
    proof {
        assert(data@.subrange(0, i as int) =~= data@);
    }
    out
}

/// The hexadecimal digit of a number below sixteen.
pub fn hex_char(n: u8) -> (c: char)
    requires
        n < 16,
    ensures
        c == hex_digit(n),
{
    if n < 10 {
        (0x30 + n) as char
    } else {
        (0x57 + n) as char
    }
}

/// The SHA-256 digest of `data` in hexadecimal, lower case.
pub fn sha256_hex(data: &[u8]) -> (r: String)
    ensures
        r@ == hex(sha256(data@)),
{
    let digest = sha256_digest(data);
    to_hex(digest.as_slice())
}

/// Why no descriptor set could be loaded.
#[derive(Debug)]
pub enum Error {
    /// The file could not be read.
    FileRetrieval(String),
    /// The inline data is no base64.
    Base64DecodeError(base64::DecodeError),
    /// The bytes are no descriptor set; the parser's message tells why.
    ProtoParse(String),
    /// The bucket did not give the object.
    BucketLoad { error: String, bucket_name: String },
    /// The object that the bucket gave does not have the digest that the
    /// resource names.
    ChecksumMismatch { reference: String, file: String },
}

/// Fetches an object from a configured bucket.
pub trait LoadFromBucket {
    /// The bytes of the object `object_name` of the bucket `bucket_id`, or
    /// why they could not be had.
    fn file_from_bucket(&self, bucket_id: &str, object_name: &str) -> Result<Vec<u8>, String>;
}

/// Reads a file of the local file system.
pub trait ReadFile {
    /// The bytes of the file at `path`, or why they could not be had.
    fn read_file(&self, path: &str) -> Result<Vec<u8>, String>;
}

/// A context without buckets and files: whatever is asked of it, it
/// cannot give.
#[derive(Debug)]
pub struct DummyPanicContext;

impl LoadFromBucket for DummyPanicContext {
    fn file_from_bucket(&self, bucket_id: &str, object_name: &str) -> (r: Result<Vec<u8>, String>)
        ensures
            r matches Err(error) && error@ == "no bucket is configured"@,
    {
        Err("no bucket is configured".to_owned())
    }
}

impl ReadFile for DummyPanicContext {
    fn read_file(&self, path: &str) -> (r: Result<Vec<u8>, String>)
        ensures
            r matches Err(error) && error@ == "no file can be read"@,
    {
        Err("no file can be read".to_owned())
    }
}

/// Checks what a bucket gave for the object that bears the digest `hash`
/// as its name: the bytes pass if their SHA-256 digest, in hexadecimal,
/// is `hash`.
pub fn check_bucket_object(name: &str, hash: &str, fetched: Result<Vec<u8>, String>) -> (r: Result<
    Vec<u8>,
    Error,
>)
    ensures
        match fetched {
            Err(error) => r matches Err(Error::BucketLoad { error: e, bucket_name }) && e@
                == error@ && bucket_name@ == name@,
            Ok(bytes) => if hex(sha256(bytes@)) == hash@ {
                r matches Ok(checked) && checked@ == bytes@
            } else {
                r matches Err(Error::ChecksumMismatch { reference, file }) && reference@ == hash@
                    && file@ == hex(sha256(bytes@))
            },
        },
{
    match fetched {
        Err(error) => Err(Error::BucketLoad { error, bucket_name: name.to_owned() }),
        Ok(bytes) => {
            let file_hash = sha256_hex(bytes.as_slice());
            if str_eq(hash, file_hash.as_str()) {
                Ok(bytes)
            } else {
                Err(Error::ChecksumMismatch { reference: hash.to_owned(), file: file_hash })
            }
        },
    }
}

/// The bytes that inline data writes.
pub fn decode_inline(data: &str) -> (r: Result<Vec<u8>, Error>)
    ensures
        match base64_standard(data@) {
            Some(bytes) => r matches Ok(decoded) && decoded@ == bytes,
            None => r matches Err(Error::Base64DecodeError(_)),
        },
{
    match base64_decode(data) {
        Ok(bytes) => Ok(bytes),
        Err(e) => Err(Error::Base64DecodeError(e)),
    }
}

/// Reads a descriptor set from its bytes.
pub fn parse_descriptor(bytes: &[u8]) -> (r: Result<protobuf::descriptor::FileDescriptorSet, Error>)
    ensures
        r is Ok <==> is_descriptor_set(bytes@),
        r matches Err(e) ==> e is ProtoParse,
{
    match parse_descriptor_set(bytes) {
        Ok(set) => Ok(set),
        Err(e) => Err(Error::ProtoParse(e)),
    }
}

/// Whether `r` is what the answer `fetched` of a bucket amounts to, for
/// the object of the bucket `name` that bears the digest `hash` as its
/// name: a failure is a `BucketLoad` with the bucket's name, bytes with
/// another digest are a `ChecksumMismatch`, and bytes with the digest are
/// handed on.
pub open spec fn bucket_answer(
    r: Result<Vec<u8>, Error>,
    name: Seq<char>,
    hash: Seq<char>,
    fetched: Result<Vec<u8>, String>,
) -> bool {
    match fetched {
        Err(error) => (r matches Err(Error::BucketLoad { error: e, bucket_name }) && e@ == error@
            && bucket_name@ == name),
        Ok(bytes) => if hex(sha256(bytes@)) == hash {
            (r matches Ok(checked) && checked@ == bytes@)
        } else {
            (r matches Err(Error::ChecksumMismatch { reference, file }) && reference@ == hash
                && file@ == hex(sha256(bytes@)))
        },
    }
}

/// Whether `r` is what the answer `fetched` of a file read amounts to: a
/// failure is a `FileRetrieval` with the reader's message, and bytes are
/// handed on.
pub open spec fn file_answer(r: Result<Vec<u8>, Error>, fetched: Result<Vec<u8>, String>) -> bool {
    match fetched {
        Err(error) => (r matches Err(Error::FileRetrieval(e)) && e@ == error@),
        Ok(bytes) => (r matches Ok(read) && read@ == bytes@),
    }
}

/// Whether `r` is what loaded bytes amount to: an error of the load is
/// handed on, bytes that are a descriptor set are read, and any other
/// bytes are a `ProtoParse`.
pub open spec fn parsed_answer(
    r: Result<protobuf::descriptor::FileDescriptorSet, Error>,
    loaded: Result<Vec<u8>, Error>,
) -> bool {
    match loaded {
        Err(e) => r == Err::<protobuf::descriptor::FileDescriptorSet, Error>(e),
        Ok(bytes) => if is_descriptor_set(bytes@) {
            r is Ok
        } else {
            r matches Err(Error::ProtoParse(_))
        },
    }
}

/// Loads the bytes of a descriptor set from its source.
///
/// For a file, the context is asked to read the file at the path, and
/// what it gives is handed on; a failure is a `FileRetrieval`. For a
/// bucket, the context is asked for the object that bears the digest as
/// its name, in the named bucket; a failure is a `BucketLoad`, and bytes
/// pass only with that digest. Inline data is decoded; the context is not
/// asked.
pub fn source_bytes<C: LoadFromBucket + ReadFile>(context: &C, source: &DescriptorSetSource) -> (r:
    Result<Vec<u8>, Error>)
    ensures
        match *source {
            DescriptorSetSource::File { path } => exists|p: &str, fetched: Result<Vec<u8>, String>|
                p@ == path@ && #[trigger] call_ensures(C::read_file, (context, p), fetched)
                    && file_answer(r, fetched),
            DescriptorSetSource::Bucket { name, hash } => exists|
                b: &str,
                o: &str,
                fetched: Result<Vec<u8>, String>,
            |
                b@ == name@ && o@ == hash@ && #[trigger] call_ensures(
                    C::file_from_bucket,
                    (context, b, o),
                    fetched,
                ) && bucket_answer(r, name@, hash@, fetched),
            DescriptorSetSource::Inline { data } => match base64_standard(data@) {
                Some(bytes) => r matches Ok(decoded) && decoded@ == bytes,
                None => r matches Err(Error::Base64DecodeError(_)),
            },
        },
{
    match source {
        DescriptorSetSource::File { path } => {
            let at = path.as_str();
            let fetched = context.read_file(at);
            let ghost answer = fetched;
            let r = match fetched {
                Ok(bytes) => Ok(bytes),
                Err(e) => Err(Error::FileRetrieval(e)),
            };
            proof {
                assert(call_ensures(C::read_file, (context, at), answer));
                assert(file_answer(r, answer));
            }
            r
        },
        DescriptorSetSource::Bucket { name, hash } => {
            let bucket = name.as_str();
            let object = hash.as_str();
            let fetched = context.file_from_bucket(bucket, object);
            let ghost answer = fetched;
            let r = check_bucket_object(bucket, object, fetched);
            proof {
                assert(call_ensures(C::file_from_bucket, (context, bucket, object), answer));
                assert(bucket_answer(r, name@, hash@, answer));
            }
            r
        },
        DescriptorSetSource::Inline { data } => decode_inline(data.as_str()),
    }
}

/// Loads a descriptor set from its source.
///
/// The bytes are loaded as `source_bytes` tells: the context is asked
/// for the file at the path, or for the object of the named bucket that
/// bears the digest as its name; inline data is decoded. A failed load is
/// handed on as it is. Bytes that were loaded are read as a descriptor
/// set; an object whose digest is not the one that the resource names is
/// never read.
pub fn from_source<C: LoadFromBucket + ReadFile>(context: &C, source: &DescriptorSetSource) -> (r:
    Result<protobuf::descriptor::FileDescriptorSet, Error>)
    ensures
        match *source {
            DescriptorSetSource::File { path } => exists|
                p: &str,
                fetched: Result<Vec<u8>, String>,
                loaded: Result<Vec<u8>, Error>,
            |
                p@ == path@ && #[trigger] call_ensures(C::read_file, (context, p), fetched)
                    && #[trigger] file_answer(loaded, fetched) && parsed_answer(r, loaded),
            DescriptorSetSource::Bucket { name, hash } => exists|
                b: &str,
                o: &str,
                fetched: Result<Vec<u8>, String>,
                loaded: Result<Vec<u8>, Error>,
            |
                b@ == name@ && o@ == hash@ && #[trigger] call_ensures(
                    C::file_from_bucket,
                    (context, b, o),
                    fetched,
                ) && #[trigger] bucket_answer(loaded, name@, hash@, fetched) && parsed_answer(
                    r,
                    loaded,
                ),
            DescriptorSetSource::Inline { data } => match base64_standard(data@) {
                Some(bytes) => if is_descriptor_set(bytes) {
                    r is Ok
                } else {
                    r matches Err(Error::ProtoParse(_))
                },
                None => r matches Err(Error::Base64DecodeError(_)),
            },
        },
{
    let loaded = source_bytes(context, source);
    let ghost answer = loaded;
    let r = match loaded {
        Ok(bytes) => parse_descriptor(bytes.as_slice()),
        Err(e) => Err(e),
    };
    proof {
        assert(parsed_answer(r, answer));
    }
    r
}

} // verus!
