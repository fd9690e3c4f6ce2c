use grcache::crd::DescriptorSetSource;
use grcache::descriptor_set::{
    check_bucket_object, decode_inline, from_source, sha256_hex, source_bytes, to_hex,
    DummyPanicContext, Error, LoadFromBucket, ReadFile,
};

struct DummyBucketLoader {
    object_name: String,
    data: Vec<u8>,
}

impl LoadFromBucket for DummyBucketLoader {
    fn file_from_bucket(&self, _bucket_id: &str, object_name: &str) -> Result<Vec<u8>, String> {
        if object_name == self.object_name {
            Ok(self.data.clone())
        } else {
            Err("no object found".to_string())
        }
    }
}

impl ReadFile for DummyBucketLoader {
    fn read_file(&self, path: &str) -> Result<Vec<u8>, String> {
        if path == "descriptors.binpb" {
            Ok(self.data.clone())
        } else {
            Err("no such file".to_string())
        }
    }
}

#[test]
fn test_descriptor_set_from_bucket() {
    let data = b"";
    let hash = sha256_hex(data);

    let loader = DummyBucketLoader { object_name: hash.clone(), data: data.to_vec() };

    let source = DescriptorSetSource::Bucket { name: "some_bucket".into(), hash };

    let result = from_source(&loader, &source);
    result.unwrap();
}

#[test]
fn test_descriptor_set_from_bucket_with_wrong_hash() {
    let data = b"";
    let hash = sha256_hex(data);

    let loader = DummyBucketLoader { object_name: hash.clone(), data: b"a".to_vec() };

    let source = DescriptorSetSource::Bucket { name: "some_bucket".into(), hash };

    let result = from_source(&loader, &source);
    assert!(result.is_err());
}

#[test]
fn wrong_hash_is_a_checksum_mismatch() {
    let hash = sha256_hex(b"");
    let loader = DummyBucketLoader { object_name: hash.clone(), data: b"a".to_vec() };
    let source = DescriptorSetSource::Bucket { name: "some_bucket".into(), hash: hash.clone() };
    match from_source(&loader, &source) {
        Err(Error::ChecksumMismatch { reference, file }) => {
            assert_eq!(reference, hash);
            assert_eq!(file, "ca978112ca1bbdcafac231b39a23dc4da786eff8147c4e72b9807785afee48bb");
        }
        _ => panic!("a checksum mismatch is owed"),
    }
}

#[test]
fn missing_object_is_a_bucket_load_error() {
    let loader = DummyBucketLoader { object_name: "other".into(), data: vec![] };
    let source = DescriptorSetSource::Bucket { name: "some_bucket".into(), hash: "abc".into() };
    match from_source(&loader, &source) {
        Err(Error::BucketLoad { error, bucket_name }) => {
            assert_eq!(error, "no object found");
            assert_eq!(bucket_name, "some_bucket");
        }
        _ => panic!("a bucket load error is owed"),
    }
}

#[test]
fn sha256_of_known_inputs() {
    assert_eq!(
        sha256_hex(b""),
        "e3b0c44298fc1c149afbf4c8996fb92427ae41e4649b934ca495991b7852b855"
    );
    assert_eq!(
        sha256_hex(b"abc"),
        "ba7816bf8f01cfea414140de5dae2223b00361a396177a9cb410ff61f20015ad"
    );
}

#[test]
fn hex_is_lower_case_with_two_digits_a_byte() {
    assert_eq!(to_hex(&[]), "");
    assert_eq!(to_hex(&[0x00, 0x0f, 0xa0, 0xff, 0x9b]), "000fa0ff9b");
}

#[test]
fn inline_source_is_base64() {
    assert_eq!(decode_inline("aGVsbG8=").ok().unwrap(), b"hello");
    assert_eq!(decode_inline("").ok().unwrap(), b"");
    assert!(matches!(decode_inline("not base64!"), Err(Error::Base64DecodeError(_))));
    // Standard base64 asks for its padding.
    assert!(matches!(decode_inline("aGVsbG8"), Err(Error::Base64DecodeError(_))));

    let source = DescriptorSetSource::Inline { data: "".into() };
    assert!(from_source(&DummyPanicContext, &source).is_ok());
    let source = DescriptorSetSource::Inline { data: "%%%".into() };
    assert!(matches!(
        from_source(&DummyPanicContext, &source),
        Err(Error::Base64DecodeError(_))
    ));
}

#[test]
fn bytes_that_are_no_descriptor_set_are_refused() {
    // A tag with a wire type that does not exist.
    let source = DescriptorSetSource::Inline { data: "Dw==".into() };
    assert!(matches!(from_source(&DummyPanicContext, &source), Err(Error::ProtoParse(_))));
    // One file of the name "a.proto".
    let source = DescriptorSetSource::Inline { data: "CgkKB2EucHJvdG8=".into() };
    let set = from_source(&DummyPanicContext, &source).ok().unwrap();
    assert_eq!(set.file.len(), 1);
    assert_eq!(set.file[0].name(), "a.proto");
}

#[test]
fn file_source_is_read_through_the_context() {
    let loader = DummyBucketLoader { object_name: String::new(), data: vec![1, 2, 3] };
    let source = DescriptorSetSource::File { path: "descriptors.binpb".into() };
    assert_eq!(source_bytes(&loader, &source).ok().unwrap(), vec![1, 2, 3]);
    let source = DescriptorSetSource::File { path: "elsewhere".into() };
    match source_bytes(&loader, &source) {
        Err(Error::FileRetrieval(e)) => assert_eq!(e, "no such file"),
        _ => panic!("a file error is owed"),
    }
    assert!(matches!(
        source_bytes(&DummyPanicContext, &source),
        Err(Error::FileRetrieval(_))
    ));
    let bucket = DescriptorSetSource::Bucket { name: "b".into(), hash: "h".into() };
    assert!(matches!(source_bytes(&DummyPanicContext, &bucket), Err(Error::BucketLoad { .. })));
}

#[test]
fn bucket_object_passes_only_with_its_digest() {
    let hash = sha256_hex(b"abc");
    assert_eq!(check_bucket_object("b", &hash, Ok(b"abc".to_vec())).ok().unwrap(), b"abc");
    assert!(matches!(
        check_bucket_object("b", &hash.to_uppercase(), Ok(b"abc".to_vec())),
        Err(Error::ChecksumMismatch { .. })
    ));
    assert!(matches!(
        check_bucket_object("b", &hash, Err("gone".to_string())),
        Err(Error::BucketLoad { .. })
    ));
}
