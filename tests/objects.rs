use rit::builder::{is_reserved, is_valid_name, TreeBuilder};
use rit::codec::{decode, encode_blob, encode_tree, mode_string, CodecError, Entry, Mode, Object};
use rit::error::ObjError;
use rit::id::{fingerprint, IdError, ObjectId};
use rit::objects::{entry_names, hash_object, list_tree, read_blob};
use rit::store::{plan_write, read_object};

const EMPTY_TREE: &str = "4b825dc642cb6eb9a060e54bf8d69288fbee4904";
const HELLO_BLOB: &str = "b6fc4c620b67d95f953a5c1c1230aaab5db5a1b0";

#[test]
fn blob_framing_has_kind_and_length() {
    assert_eq!(encode_blob(b"hello"), b"blob 5\0hello".to_vec());
    assert_eq!(encode_blob(b""), b"blob 0\0".to_vec());
    let big = vec![7u8; 1234];
    let framed = encode_blob(&big);
    assert_eq!(&framed[..10], b"blob 1234\0");
    assert_eq!(framed.len(), 10 + 1234);
}

#[test]
fn hash_object_matches_git_ids() {
    let (id, framed) = hash_object(b"hello");
    assert_eq!(framed, b"blob 5\0hello".to_vec());
    assert_eq!(id.to_hex(), HELLO_BLOB);
    let (empty, _) = hash_object(b"");
    assert_eq!(empty.to_hex(), "e69de29bb2d1d6434b8b29ae775ad8c2e48c5391");
    let (line, _) = hash_object(b"hello\n");
    assert_eq!(line.to_hex(), "ce013625030ba8dba906f756967f9e9ca394464a");
}

#[test]
fn equal_contents_get_equal_ids() {
    let a = b"some file contents".to_vec();
    let b = a.clone();
    let (ia, _) = hash_object(&a);
    let (ib, _) = hash_object(&b);
    assert!(ia.equals(&ib));
    let (ic, _) = hash_object(b"other contents");
    assert!(!ia.equals(&ic));
}

#[test]
fn blob_and_tree_framings_of_same_bytes_differ() {
    let payload = b"100644 a\0aaaaaaaaaaaaaaaaaaaa".to_vec();
    let (blob_id, blob_framed) = hash_object(&payload);
    let mut tree_framed = format!("tree {}\0", payload.len()).into_bytes();
    tree_framed.extend_from_slice(&payload);
    assert_ne!(blob_framed, tree_framed);
    let tree_id = fingerprint(&tree_framed);
    assert!(!blob_id.equals(&tree_id));
}

#[test]
fn blob_round_trip() {
    for p in [b"".to_vec(), b"hello".to_vec(), vec![0u8, 1, 2, 0, 255], vec![9u8; 300]] {
        match decode(&encode_blob(&p)) {
            Ok(Object::Blob(q)) => assert_eq!(q, p),
            other => panic!("unexpected {:?}", other),
        }
    }
}

fn entry(mode: Mode, name: &str, target: &ObjectId) -> Entry {
    Entry { mode, name: name.as_bytes().to_vec(), target: target.duplicate() }
}

#[test]
fn tree_round_trip_keeps_order() {
    let (hello, _) = hash_object(b"hello");
    let empty = ObjectId::from_hex(EMPTY_TREE).unwrap();
    let entries = vec![
        entry(Mode::RegularFile, "z.txt", &hello),
        entry(Mode::Directory, "dir with space", &empty),
        entry(Mode::RegularFile, "a", &empty),
    ];
    let framed = encode_tree(&entries);
    match decode(&framed) {
        Ok(Object::Tree(back)) => {
            assert_eq!(back.len(), 3);
            for (x, y) in back.iter().zip(entries.iter()) {
                assert_eq!(x.mode, y.mode);
                assert_eq!(x.name, y.name);
                assert!(x.target.equals(&y.target));
            }
        }
        other => panic!("unexpected {:?}", other),
    }
}

#[test]
fn tree_entry_bytes() {
    let (hello, _) = hash_object(b"hello");
    let framed = encode_tree(&vec![entry(Mode::RegularFile, "a.txt", &hello)]);
    let mut expected = b"tree 33\0100644 a.txt\0".to_vec();
    expected.extend_from_slice(hello.as_bytes());
    assert_eq!(framed, expected);
}

#[test]
fn decode_rejects_malformed_framings() {
    assert_eq!(decode(b"blob 5hello").unwrap_err(), CodecError::Malformed);
    assert_eq!(decode(b"commit 0\0").unwrap_err(), CodecError::Malformed);
    assert_eq!(decode(b"blob 3\0ab").unwrap_err(), CodecError::LengthMismatch);
    assert_eq!(decode(b"blob 05\0hello").unwrap_err(), CodecError::Malformed);
    assert_eq!(decode(b"blob \0").unwrap_err(), CodecError::Malformed);
    assert_eq!(decode(b"blob 99999999999999999999999\0x").unwrap_err(), CodecError::LengthMismatch);
    assert_eq!(decode(b"blob 1x\0x").unwrap_err(), CodecError::Malformed);
    // a tree entry whose fingerprint is cut short
    let mut t = b"tree 15\0100644 a\0abcdef".to_vec();
    assert_eq!(t.len(), 8 + 15);
    assert_eq!(decode(&t).unwrap_err(), CodecError::Malformed);
    // an unknown mode
    t = b"tree 29\0100755 a\0".to_vec();
    t.extend_from_slice(&[1u8; 20]);
    assert_eq!(decode(&t).unwrap_err(), CodecError::Malformed);
}

#[test]
fn write_is_idempotent_and_reads_back() {
    let (_, framed) = hash_object(b"hello");
    let first = plan_write(&framed, false).expect("object is new");
    assert_ne!(first, framed);
    assert_eq!(read_object(Some(&first)).unwrap(), framed);
    // the object is now present: the second write asks for nothing
    assert!(plan_write(&framed, true).is_none());
    assert_eq!(read_object(Some(&first)).unwrap(), framed);
}

#[test]
fn corrupt_object_is_reported() {
    assert_eq!(read_object(Some(b"not zlib at all")).unwrap_err(), ObjError::Corrupt);
    // a declared length that disagrees with the payload
    assert_eq!(read_blob(b"blob 7\0hello").unwrap_err(), ObjError::Corrupt);
    assert_eq!(read_blob(b"blob 2\0hello").unwrap_err(), ObjError::Corrupt);
    assert_eq!(list_tree(b"tree 3\0").unwrap_err(), ObjError::Corrupt);
    let stored = plan_write(b"blob 9\0hello", false).unwrap();
    let framed = read_object(Some(&stored)).unwrap();
    assert_eq!(read_blob(&framed).unwrap_err(), ObjError::Corrupt);
}

#[test]
fn repeated_names_are_refused() {
    let (empty_id, _) = TreeBuilder::new().finish();
    let mut t = TreeBuilder::new();
    assert!(t.add_file(b"x", b"1").unwrap().is_some());
    assert!(t.contains(b"x"));
    assert!(!t.contains(b"y"));
    assert_eq!(t.add_file(b"x", b"2").unwrap_err(), ObjError::DuplicateName);
    assert_eq!(t.add_dir(b"x", &empty_id), Err(ObjError::DuplicateName));
    assert_eq!(t.add_dir(b"y", &empty_id), Ok(true));
    let (_, framed) = t.finish();
    assert_eq!(list_tree(&framed).unwrap().len(), 2);
}

#[test]
fn unknown_fingerprint_is_not_found() {
    let zero = "0".repeat(40);
    let id = ObjectId::from_hex(&zero).unwrap();
    assert_eq!(id.as_bytes(), &[0u8; 20][..]);
    let (dir, file) = id.shard();
    assert_eq!(dir, "00");
    assert_eq!(file, "0".repeat(38));
    assert_eq!(read_object(None).unwrap_err(), ObjError::NotFound);
}

#[test]
fn listing_a_blob_is_wrong_kind() {
    let (_, framed) = hash_object(b"hello");
    assert_eq!(list_tree(&framed).unwrap_err(), ObjError::WrongKind);
    let (_, tree) = TreeBuilder::new().finish();
    assert_eq!(read_blob(&tree).unwrap_err(), ObjError::WrongKind);
    assert_eq!(read_blob(&framed).unwrap(), b"hello".to_vec());
    assert_eq!(list_tree(b"garbage").unwrap_err(), ObjError::Malformed);
}

#[test]
fn empty_tree_has_fixed_id() {
    let (a, fa) = TreeBuilder::new().finish();
    let (b, _) = TreeBuilder::new().finish();
    assert_eq!(fa, b"tree 0\0".to_vec());
    assert_eq!(a.to_hex(), EMPTY_TREE);
    assert!(a.equals(&b));
}

#[test]
fn tree_of_file_and_empty_dir() {
    let (empty_id, _) = TreeBuilder::new().finish();
    let mut root = TreeBuilder::new();
    let blob = root.add_file(b"a.txt", b"hello").unwrap().expect("a blob to store");
    assert_eq!(blob.id.to_hex(), HELLO_BLOB);
    assert_eq!(blob.framed, b"blob 5\0hello".to_vec());
    assert_eq!(root.add_dir(b"b", &empty_id), Ok(true));
    let (_, framed) = root.finish();
    let entries = list_tree(&framed).unwrap();
    assert_eq!(entries.len(), 2);
    assert_eq!(entries[0].mode, Mode::RegularFile);
    assert_eq!(entries[0].name, b"a.txt".to_vec());
    assert_eq!(entries[0].target.to_hex(), HELLO_BLOB);
    assert_eq!(entries[1].mode, Mode::Directory);
    assert_eq!(entries[1].name, b"b".to_vec());
    assert_eq!(entries[1].target.to_hex(), EMPTY_TREE);
    assert_eq!(entry_names(&entries), vec![b"a.txt".to_vec(), b"b".to_vec()]);
}

#[test]
fn reserved_and_invalid_names() {
    assert!(is_reserved(b".git"));
    assert!(!is_reserved(b".gitignore"));
    assert!(is_valid_name(b"file name.txt"));
    assert!(!is_valid_name(b""));
    assert!(!is_valid_name(b"a/b"));
    let mut t = TreeBuilder::new();
    assert!(t.add_file(b".git", b"x").unwrap().is_none());
    assert_eq!(t.add_dir(b".git", &fingerprint(b"x")), Ok(false));
    assert_eq!(t.add_file(b"a/b", b"x").unwrap_err(), ObjError::InvalidName);
    assert_eq!(t.add_dir(b"", &fingerprint(b"x")), Err(ObjError::InvalidName));
    let (id, _) = t.finish();
    assert_eq!(id.to_hex(), EMPTY_TREE);
}

#[test]
fn hex_ids() {
    let id = ObjectId::from_hex("4B825DC642CB6EB9A060E54BF8D69288FBEE4904").unwrap();
    assert_eq!(id.to_hex(), EMPTY_TREE);
    let (dir, file) = id.shard();
    assert_eq!(dir, "4b");
    assert_eq!(file, "825dc642cb6eb9a060e54bf8d69288fbee4904");
    assert_eq!(ObjectId::from_hex("xyz").unwrap_err(), IdError::NotHex);
    assert_eq!(ObjectId::from_hex("abc").unwrap_err(), IdError::NotHex);
    assert_eq!(ObjectId::from_hex("abcd").unwrap_err(), IdError::WrongLength);
    assert!(ObjectId::from_raw(vec![1u8; 19]).is_none());
    assert_eq!(ObjectId::from_raw(vec![0xabu8; 20]).unwrap().to_hex(), "ab".repeat(20));
}

#[test]
fn mode_strings() {
    assert_eq!(mode_string(Mode::RegularFile), b"100644".to_vec());
    assert_eq!(mode_string(Mode::Directory), b"40000".to_vec());
}
