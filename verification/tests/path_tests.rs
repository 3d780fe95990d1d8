use lp_littlefs::bdcache::{new_prog_cache, new_read_cache, BdContext};
use lp_littlefs::block::RamBlockDevice;
use lp_littlefs::commit;
use lp_littlefs::commit::CommitAttr;
use lp_littlefs::config::Config;
use lp_littlefs::error::Error;
use lp_littlefs::metadata::{fetch_metadata_pair, MdDir};
use lp_littlefs::path::{dir_find, dir_find_for_create, path_is_descendant, path_last_component};
use lp_littlefs::superblock::DISK_VERSION;

fn formatted_ctx() -> BdContext<RamBlockDevice> {
    let config = Config::default_for_tests(128);
    let bd = RamBlockDevice::new(config.block_size, config.block_count);
    let rcache = new_read_cache(&config).unwrap();
    let pcache = new_prog_cache(&config).unwrap();
    let mut ctx = BdContext::new(bd, config, rcache, pcache);
    lp_littlefs::mkfs::format(&mut ctx).unwrap();
    ctx
}

fn mkdir_attrs(id: u16, name: &[u8], pair: [u32; 2]) -> [CommitAttr; 4] {
    [
        CommitAttr::create(id),
        CommitAttr::name_dir(id, name),
        CommitAttr::dir_struct(id, pair),
        CommitAttr::soft_tail(pair),
    ]
}

#[test]
fn dir_find_root() {
    let mut ctx = formatted_ctx();
    let (dir, id) = dir_find(&mut ctx, [0, 1], "/", 255, None).unwrap();
    assert_eq!(id, 0x3ff);
    assert_eq!(dir.pair, [0, 1]);
}

#[test]
fn dir_find_single() {
    let mut ctx = formatted_ctx();
    let mut root = fetch_metadata_pair(&mut ctx, [0, 1]).unwrap();
    let d0_pair = [2u32, 3];
    let attrs = mkdir_attrs(1, b"d0", d0_pair);
    commit::dir_commit_append(&mut ctx, &mut root, &attrs, &mut None, DISK_VERSION).unwrap();
    ctx.sync().unwrap();

    let (dir, id) = dir_find(&mut ctx, [0, 1], "d0", 255, None).unwrap();
    assert_eq!(id, 1);
    assert_eq!(dir.pair, [0, 1]);
}

#[test]
fn dir_find_nested() {
    let mut ctx = formatted_ctx();
    let mut root = fetch_metadata_pair(&mut ctx, [0, 1]).unwrap();
    let p_pair = [2u32, 3];
    let c_pair = [4u32, 5];
    let mkdir_p = mkdir_attrs(1, b"p", p_pair);
    commit::dir_commit_append(&mut ctx, &mut root, &mkdir_p, &mut None, DISK_VERSION).unwrap();
    ctx.sync().unwrap();

    let block_size = ctx.config.block_size as usize;
    let mut p_dir = MdDir::alloc_empty(p_pair, block_size);
    let mkdir_c = mkdir_attrs(1, b"c", c_pair);
    commit::dir_commit_append(&mut ctx, &mut p_dir, &mkdir_c, &mut None, DISK_VERSION).unwrap();
    ctx.sync().unwrap();

    let (dir, id) = dir_find(&mut ctx, [0, 1], "p/c", 255, None).unwrap();
    assert_eq!(id, 1);
    assert_eq!(dir.pair, p_pair);
}

#[test]
fn dir_find_dotdot_cancel() {
    let mut ctx = formatted_ctx();
    let mut root = fetch_metadata_pair(&mut ctx, [0, 1]).unwrap();
    let a_pair = [2u32, 3];
    let b_pair = [4u32, 5];
    let attrs_a = mkdir_attrs(1, b"a", a_pair);
    commit::dir_commit_append(&mut ctx, &mut root, &attrs_a, &mut None, DISK_VERSION).unwrap();
    let mut root = fetch_metadata_pair(&mut ctx, [0, 1]).unwrap();
    let attrs_b = mkdir_attrs(2, b"b", b_pair);
    commit::dir_commit_append(&mut ctx, &mut root, &attrs_b, &mut None, DISK_VERSION).unwrap();
    ctx.sync().unwrap();

    let (dir, id) = dir_find(&mut ctx, [0, 1], "a/../b", 255, None).unwrap();
    assert_eq!(id, 2);
    assert_eq!(dir.pair, [0, 1]);
}

#[test]
fn dir_find_after_rename() {
    let mut ctx = formatted_ctx();
    let mut root = fetch_metadata_pair(&mut ctx, [0, 1]).unwrap();
    let d0_pair = [2u32, 3];
    let attrs = mkdir_attrs(1, b"d0", d0_pair);
    commit::dir_commit_append(&mut ctx, &mut root, &attrs, &mut None, DISK_VERSION).unwrap();
    root = fetch_metadata_pair(&mut ctx, [0, 1]).unwrap();
    let rename_attrs = [
        CommitAttr::create(2),
        CommitAttr::name_dir(2, b"x0"),
        CommitAttr::dir_struct(2, d0_pair),
        CommitAttr::delete(1),
    ];
    commit::dir_commit_append(&mut ctx, &mut root, &rename_attrs, &mut None, DISK_VERSION).unwrap();
    ctx.sync().unwrap();

    let (_dir, id) = dir_find(&mut ctx, [0, 1], "x0", 255, None).unwrap();
    assert_eq!(id, 2);
    assert!(dir_find(&mut ctx, [0, 1], "d0", 255, None).is_err());
}

#[test]
fn dir_find_for_create_new_append() {
    let mut ctx = formatted_ctx();
    let mut root = fetch_metadata_pair(&mut ctx, [0, 1]).unwrap();
    let a_pair = [2u32, 3];
    let b_pair = [4u32, 5];
    let attrs_a = mkdir_attrs(1, b"a", a_pair);
    commit::dir_commit_append(&mut ctx, &mut root, &attrs_a, &mut None, DISK_VERSION).unwrap();
    root = fetch_metadata_pair(&mut ctx, [0, 1]).unwrap();
    let attrs_b = mkdir_attrs(2, b"b", b_pair);
    commit::dir_commit_append(&mut ctx, &mut root, &attrs_b, &mut None, DISK_VERSION).unwrap();
    ctx.sync().unwrap();

    let (dir, id, name) = dir_find_for_create(&mut ctx, [0, 1], "z", 255, None).unwrap();
    assert_eq!(id, 3);
    assert_eq!(name, "z");
    assert_eq!(dir.pair, [0, 1]);
}

#[test]
fn dir_find_for_create_new_insert() {
    let mut ctx = formatted_ctx();
    let mut root = fetch_metadata_pair(&mut ctx, [0, 1]).unwrap();
    let a_pair = [2u32, 3];
    let c_pair = [4u32, 5];
    let attrs_a = mkdir_attrs(1, b"a", a_pair);
    commit::dir_commit_append(&mut ctx, &mut root, &attrs_a, &mut None, DISK_VERSION).unwrap();
    root = fetch_metadata_pair(&mut ctx, [0, 1]).unwrap();
    let attrs_c = mkdir_attrs(2, b"c", c_pair);
    commit::dir_commit_append(&mut ctx, &mut root, &attrs_c, &mut None, DISK_VERSION).unwrap();
    ctx.sync().unwrap();

    let (dir, id, name) = dir_find_for_create(&mut ctx, [0, 1], "b", 255, None).unwrap();
    assert_eq!(id, 2, "b inserts between a and c at id 2");
    assert_eq!(name, "b");
    assert_eq!(dir.pair, [0, 1]);
}

#[test]
fn dir_find_for_create_exists() {
    let mut ctx = formatted_ctx();
    let mut root = fetch_metadata_pair(&mut ctx, [0, 1]).unwrap();
    let a_pair = [2u32, 3];
    let attrs = mkdir_attrs(1, b"a", a_pair);
    commit::dir_commit_append(&mut ctx, &mut root, &attrs, &mut None, DISK_VERSION).unwrap();
    ctx.sync().unwrap();

    assert!(matches!(
        dir_find_for_create(&mut ctx, [0, 1], "a", 255, None),
        Err(Error::Exist)
    ));
}

#[test]
fn dir_find_for_create_parent_noent() {
    let mut ctx = formatted_ctx();
    assert!(matches!(
        dir_find_for_create(&mut ctx, [0, 1], "nonexistent/x", 255, None),
        Err(Error::Noent)
    ));
}

#[test]
fn dir_find_empty_path_is_inval() {
    let mut ctx = formatted_ctx();
    assert!(matches!(dir_find(&mut ctx, [0, 1], "", 255, None), Err(Error::Inval)));
    assert!(matches!(dir_find_for_create(&mut ctx, [0, 1], "//", 255, None), Err(Error::Inval)));
}

#[test]
fn dir_find_missing_is_noent() {
    let mut ctx = formatted_ctx();
    assert!(matches!(dir_find(&mut ctx, [0, 1], "nope", 255, None), Err(Error::Noent)));
}

#[test]
fn dir_find_name_too_long() {
    let mut ctx = formatted_ctx();
    assert!(matches!(dir_find(&mut ctx, [0, 1], "abcdef", 3, None), Err(Error::Nametoolong)));
}

#[test]
fn path_is_descendant_cases() {
    assert!(path_is_descendant("a", "a/b"));
    assert!(path_is_descendant("/a/", "/a/b/c"));
    assert!(!path_is_descendant("a", "ab"));
    assert!(!path_is_descendant("a", "a"));
    assert!(!path_is_descendant("/", "a/b"));
    assert!(!path_is_descendant("a/b", "a"));
}

#[test]
fn path_last_component_cases() {
    assert_eq!(path_last_component("/a/b/c/"), Some("c"));
    assert_eq!(path_last_component("name"), Some("name"));
    assert_eq!(path_last_component("a//b"), Some("b"));
    assert_eq!(path_last_component("/"), None);
    assert_eq!(path_last_component(""), None);
}

#[test]
fn path_last_component_multibyte_names() {
    assert_eq!(path_last_component("/dir/καφές/"), Some("καφές"));
    assert_eq!(path_last_component("ü/ß"), Some("ß"));
}
