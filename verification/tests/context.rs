use mtl::context::{join_path, object_id_of_file, read_id_file, union_ids, Context, RefSource};
use mtl::hash;
use mtl::data::{ObjectID, ObjectRef};
use mtl::error::{ParseError, ParseHashError};

#[test]
fn test_context() {
    let ctx = Context::new(b"/tmp");
    assert_eq!(ctx.root_dir(), b"/tmp".as_slice());
    assert_eq!(
        ctx.object_dir(&ObjectID::from_hex("d447b1ea40e6988b").unwrap()),
        b"/tmp/.mtl/objects/d4".to_vec()
    );
    assert_eq!(
        ctx.object_file(&ObjectID::from_hex("d447b1ea40e6988b").unwrap()),
        b"/tmp/.mtl/objects/d4/47b1ea40e6988b".to_vec()
    );
    assert_eq!(ctx.head_file(), b"/tmp/.mtl/HEAD".to_vec());
}

#[test]
fn repository_layout() {
    let ctx = Context::new(b"/repo/");
    assert_eq!(ctx.objects_dir(), b"/repo/.mtl/objects".to_vec());
    assert_eq!(ctx.pack_dir(), b"/repo/.mtl/pack".to_vec());
    assert_eq!(ctx.pack_file(), b"/repo/.mtl/pack/packed.redb".to_vec());
    assert_eq!(ctx.cache_dir(), b"/repo/.mtl/cache".to_vec());
    assert_eq!(ctx.cache_db_file(), b"/repo/.mtl/cache/cache.redb".to_vec());
    assert_eq!(ctx.reference_dir(), b"/repo/.mtl/refs".to_vec());
    assert_eq!(ctx.reference_file("v1"), b"/repo/.mtl/refs/v1".to_vec());
    assert_eq!(Context::new(b"").head_file(), b".mtl/HEAD".to_vec());
}

#[test]
fn joining_path_texts() {
    assert_eq!(join_path(b"a", b"b"), b"a/b".to_vec());
    assert_eq!(join_path(b"a/", b"b"), b"a/b".to_vec());
    assert_eq!(join_path(b"", b"b"), b"b".to_vec());
    assert_eq!(join_path(b"a", b"/b"), b"/b".to_vec());
    assert_eq!(join_path(b"a", b""), b"a/".to_vec());
}

#[test]
fn references_are_looked_up_in_their_files() {
    let ctx = Context::new(b"/repo");
    let id = ObjectID::from_hex("d447b1ea40e6988b").unwrap();
    assert_eq!(ctx.ref_source(&ObjectRef::new_id(id)), RefSource::Id(id));
    assert_eq!(
        ctx.ref_source(&ObjectRef::new_reference("HEAD")),
        RefSource::File(b"/repo/.mtl/HEAD".to_vec())
    );
    assert_eq!(
        ctx.ref_source(&ObjectRef::new_reference("v1")),
        RefSource::File(b"/repo/.mtl/refs/v1".to_vec())
    );
}

#[test]
fn id_files_are_trimmed() {
    let id = ObjectID::from_hex("d447b1ea40e6988b").unwrap();
    assert_eq!(read_id_file(b"d447b1ea40e6988b"), Ok(id));
    assert_eq!(read_id_file(b"d447b1ea40e6988b\n"), Ok(id));
    assert_eq!(read_id_file(b" \td447b1ea40e6988b\r\n"), Ok(id));
    assert_eq!(
        read_id_file(b""),
        Err(ParseError::Hash(ParseHashError::InvalidFormat))
    );
    assert_eq!(
        read_id_file(b"d447b1ea 40e6988b"),
        Err(ParseError::Hash(ParseHashError::InvalidFormat))
    );
    assert_eq!(
        read_id_file(b"d447b1ea40e6988g"),
        Err(ParseError::Hash(ParseHashError::IntError))
    );
}

#[test]
fn loose_object_names_spell_the_id() {
    let id = ObjectID::from_hex("d447b1ea40e6988b").unwrap();
    assert_eq!(object_id_of_file(b"d4", b"47b1ea40e6988b"), Ok(id));
    assert_eq!(
        object_id_of_file(b"D4", b"47b1ea40e6988b"),
        Err(ParseError::Hash(ParseHashError::InvalidFormat))
    );
    assert_eq!(
        object_id_of_file(b"d4", b"47b1ea40e6988"),
        Err(ParseError::Hash(ParseHashError::InvalidFormat))
    );
    assert_eq!(
        object_id_of_file(b"d4", b"47b1ea40e6988x"),
        Err(ParseError::Hash(ParseHashError::IntError))
    );
}

#[test]
fn ids_of_both_layers_are_listed_once() {
    let id = |n: u64| ObjectID::new(hash::Hash::new(n));
    let loose = vec![id(3), id(1), id(3)];
    let packed = vec![id(2), id(1), id(4)];
    assert_eq!(union_ids(&loose, &packed), vec![id(3), id(1), id(2), id(4)]);
    assert_eq!(union_ids(&Vec::new(), &packed), packed);
    assert_eq!(union_ids(&Vec::new(), &Vec::new()), Vec::new());
}

#[test]
fn written_names_are_read_back() {
    let ctx = Context::new(b"/repo");
    for n in [0u64, 1, 0xd447b1ea40e6988b, u64::MAX] {
        let id = ObjectID::new(hash::Hash::new(n));
        let file = ctx.object_file(&id);
        let dir = ctx.object_dir(&id);
        assert_eq!(&file[..dir.len()], dir.as_slice());
        let dir_name = &dir[dir.len() - 2..];
        let file_name = &file[dir.len() + 1..];
        assert_eq!(object_id_of_file(dir_name, file_name), Ok(id));
        assert_eq!(read_id_file(id.to_string().as_bytes()), Ok(id));
    }
}
