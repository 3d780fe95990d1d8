use lp_littlefs::bdcache::{new_prog_cache, new_read_cache, BdContext};
use lp_littlefs::block::RamBlockDevice;
use lp_littlefs::config::Config;
use lp_littlefs::dir::{dir_read, Dir};
use lp_littlefs::error::Error;
use lp_littlefs::file::File;
use lp_littlefs::fs::{fs_size, fs_stat, mkdir, remove, rename, stat};
use lp_littlefs::gstate::GState;
use lp_littlefs::info::{FileType, Info, OpenFlags};
use lp_littlefs::lookahead::Lookahead;
use lp_littlefs::parent::{fs_parent, fs_pred};

struct Fs {
    ctx: BdContext<RamBlockDevice>,
    root: [u32; 2],
    lookahead: Lookahead,
    gstate: GState,
    gdisk: GState,
    gdelta: GState,
}

fn mounted() -> Fs {
    let config = Config::default_for_tests(128);
    let bd = RamBlockDevice::new(config.block_size, config.block_count);
    let rcache = new_read_cache(&config).unwrap();
    let pcache = new_prog_cache(&config).unwrap();
    let mut ctx = BdContext::new(bd, config, rcache, pcache);
    lp_littlefs::mkfs::format(&mut ctx).unwrap();
    let lookahead = Lookahead::new(&ctx.config);
    Fs { ctx, root: [0, 1], lookahead, gstate: GState::zero(), gdisk: GState::zero(), gdelta: GState::zero() }
}

fn make_dir(fs: &mut Fs, path: &str) -> Result<(), Error> {
    mkdir(
        &mut fs.ctx,
        &mut fs.root,
        &mut fs.lookahead,
        path,
        255,
        &mut fs.gstate,
        &mut fs.gdisk,
        &mut fs.gdelta,
    )
}

fn remove_path(fs: &mut Fs, path: &str) -> Result<(), Error> {
    remove(
        &mut fs.ctx,
        &mut fs.root,
        &mut fs.lookahead,
        path,
        255,
        &mut fs.gstate,
        &mut fs.gdisk,
        &mut fs.gdelta,
    )
}

fn rename_path(fs: &mut Fs, from: &str, to: &str) -> Result<(), Error> {
    rename(
        &mut fs.ctx,
        &mut fs.root,
        &mut fs.lookahead,
        from,
        to,
        255,
        &mut fs.gstate,
        &mut fs.gdisk,
        &mut fs.gdelta,
    )
}

fn create_file(fs: &mut Fs, path: &str) {
    let f = File::open(
        &mut fs.ctx,
        &mut fs.root,
        &mut fs.lookahead,
        path,
        255,
        255,
        OpenFlags::new(OpenFlags::WRONLY | OpenFlags::CREAT | OpenFlags::EXCL),
        &fs.gstate,
        &mut fs.gdisk,
        &mut fs.gdelta,
    )
    .unwrap();
    f.close(&mut fs.ctx, &mut fs.root, &mut fs.lookahead, 255, &fs.gstate, &mut fs.gdisk, &mut fs.gdelta).unwrap();
}

fn names(fs: &mut Fs, path: &str) -> Vec<(String, FileType)> {
    let mut dir = Dir::open(&mut fs.ctx, fs.root, path, 255).unwrap();
    let is_root = path.trim_matches('/').is_empty();
    let mut info = Info::new(FileType::Reg, 0);
    let mut out = Vec::new();
    loop {
        let n = dir_read(&mut fs.ctx, &mut dir, &mut info, 255, None, is_root).unwrap();
        if n == 0 {
            break;
        }
        let name = info.name().unwrap().to_string();
        if name != "." && name != ".." {
            out.push((name, info.typ));
        }
    }
    out
}

#[test]
fn mkdir_then_file_both_listed() {
    let mut fs = mounted();
    make_dir(&mut fs, "potato").unwrap();
    create_file(&mut fs, "zucchini");
    let listed = names(&mut fs, "/");
    assert_eq!(
        listed,
        vec![("potato".to_string(), FileType::Dir), ("zucchini".to_string(), FileType::Reg)]
    );
}

#[test]
fn mkdir_errors() {
    let mut fs = mounted();
    assert!(matches!(make_dir(&mut fs, ""), Err(Error::Inval)));
    assert!(matches!(make_dir(&mut fs, "/"), Err(Error::Exist)));
    make_dir(&mut fs, "d").unwrap();
    assert!(matches!(make_dir(&mut fs, "d"), Err(Error::Exist)));
    assert!(matches!(make_dir(&mut fs, "missing/child"), Err(Error::Noent)));
    let long = "x".repeat(300);
    assert!(matches!(make_dir(&mut fs, &long), Err(Error::Nametoolong)));
}

#[test]
fn mkdir_nested_with_file() {
    let mut fs = mounted();
    make_dir(&mut fs, "parent").unwrap();
    make_dir(&mut fs, "parent/child").unwrap();
    create_file(&mut fs, "parent/child/leaf");
    assert_eq!(names(&mut fs, "/"), vec![("parent".to_string(), FileType::Dir)]);
    assert_eq!(names(&mut fs, "parent"), vec![("child".to_string(), FileType::Dir)]);
    assert_eq!(names(&mut fs, "parent/child"), vec![("leaf".to_string(), FileType::Reg)]);
    let info = stat(&mut fs.ctx, fs.root, "parent/child/leaf", 255).unwrap();
    assert_eq!(info.typ, FileType::Reg);
    assert_eq!(info.name_bytes(), b"leaf");
}

#[test]
fn stat_root_and_entries() {
    let mut fs = mounted();
    let info = stat(&mut fs.ctx, fs.root, "/", 255).unwrap();
    assert_eq!(info.typ, FileType::Dir);
    assert_eq!(info.name_bytes(), b"/");
    make_dir(&mut fs, "tea").unwrap();
    let info = stat(&mut fs.ctx, fs.root, "tea", 255).unwrap();
    assert_eq!(info.typ, FileType::Dir);
    assert_eq!(info.name_bytes(), b"tea");
    assert!(matches!(stat(&mut fs.ctx, fs.root, "coffee", 255), Err(Error::Noent)));
    assert!(matches!(stat(&mut fs.ctx, fs.root, "", 255), Err(Error::Inval)));
}

#[test]
fn dir_open_errors() {
    let mut fs = mounted();
    create_file(&mut fs, "plain");
    assert!(matches!(Dir::open(&mut fs.ctx, fs.root, "plain", 255), Err(Error::NotDir)));
    assert!(matches!(Dir::open(&mut fs.ctx, fs.root, "nothing", 255), Err(Error::Noent)));
    assert!(matches!(Dir::open(&mut fs.ctx, fs.root, "", 255), Err(Error::Inval)));
}

#[test]
fn dir_seek_tell_rewind() {
    let mut fs = mounted();
    for n in ["a", "b", "c"] {
        create_file(&mut fs, n);
    }
    let mut dir = Dir::open(&mut fs.ctx, fs.root, "/", 255).unwrap();
    let mut info = Info::new(FileType::Reg, 0);
    let mut all = Vec::new();
    loop {
        let pos = dir.tell();
        if dir_read(&mut fs.ctx, &mut dir, &mut info, 255, None, true).unwrap() == 0 {
            break;
        }
        all.push((pos, info.name().unwrap().to_string()));
    }
    assert_eq!(all.len(), 5);
    assert_eq!(all[0].1, ".");
    assert_eq!(all[1].1, "..");
    let (pos, name) = all[3].clone();
    dir.seek(&mut fs.ctx, fs.root, pos).unwrap();
    assert_eq!(dir.tell(), pos);
    assert_eq!(dir_read(&mut fs.ctx, &mut dir, &mut info, 255, None, true).unwrap(), 1);
    assert_eq!(info.name().unwrap(), name);
    dir.rewind(&mut fs.ctx).unwrap();
    assert_eq!(dir.tell(), 0);
    assert_eq!(dir_read(&mut fs.ctx, &mut dir, &mut info, 255, None, true).unwrap(), 1);
    assert_eq!(info.name().unwrap(), ".");
    assert!(matches!(dir.seek(&mut fs.ctx, fs.root, 100), Err(Error::Inval)));
}

#[test]
fn fs_size_counts_pairs() {
    let mut fs = mounted();
    let before = fs_size(&mut fs.ctx, fs.root).unwrap();
    assert_eq!(before, 2);
    make_dir(&mut fs, "d").unwrap();
    assert_eq!(fs_size(&mut fs.ctx, fs.root).unwrap(), 4);
    create_file(&mut fs, "later");
    assert_eq!(fs_size(&mut fs.ctx, fs.root).unwrap(), 4);
    make_dir(&mut fs, "e").unwrap();
    assert_eq!(fs_size(&mut fs.ctx, fs.root).unwrap(), 6);
}

#[test]
fn directories_keep_their_blocks_after_more_commits() {
    let mut fs = mounted();
    make_dir(&mut fs, "a").unwrap();
    create_file(&mut fs, "a/one");
    for name in ["b", "c", "d"] {
        make_dir(&mut fs, name).unwrap();
    }
    create_file(&mut fs, "d/two");
    assert_eq!(names(&mut fs, "a"), vec![("one".to_string(), FileType::Reg)]);
    assert_eq!(names(&mut fs, "d"), vec![("two".to_string(), FileType::Reg)]);
    assert_eq!(names(&mut fs, "b"), vec![]);
}

#[test]
fn remove_file_and_empty_dir() {
    let mut fs = mounted();
    create_file(&mut fs, "f");
    make_dir(&mut fs, "g").unwrap();
    assert_eq!(fs_size(&mut fs.ctx, fs.root).unwrap(), 4);
    remove_path(&mut fs, "f").unwrap();
    assert!(matches!(stat(&mut fs.ctx, fs.root, "f", 255), Err(Error::Noent)));
    assert_eq!(names(&mut fs, "/"), vec![("g".to_string(), FileType::Dir)]);
    remove_path(&mut fs, "g").unwrap();
    assert!(matches!(stat(&mut fs.ctx, fs.root, "g", 255), Err(Error::Noent)));
    assert_eq!(names(&mut fs, "/"), vec![]);
    assert_eq!(fs_size(&mut fs.ctx, fs.root).unwrap(), 2);
}

#[test]
fn remove_errors() {
    let mut fs = mounted();
    make_dir(&mut fs, "full").unwrap();
    create_file(&mut fs, "full/x");
    assert!(matches!(remove_path(&mut fs, "full"), Err(Error::NotEmpty)));
    assert!(matches!(remove_path(&mut fs, "/"), Err(Error::Inval)));
    assert!(matches!(remove_path(&mut fs, ""), Err(Error::Inval)));
    assert!(matches!(remove_path(&mut fs, "nope"), Err(Error::Noent)));
    assert_eq!(names(&mut fs, "full"), vec![("x".to_string(), FileType::Reg)]);
}

#[test]
fn fs_stat_reports_geometry_and_version() {
    let mut fs = mounted();
    let info = fs_stat(&mut fs.ctx, fs.root, &fs.gstate, 255, 2_147_483_647, 1022).unwrap();
    assert_eq!(info.disk_version, 0x0002_0001);
    assert_eq!(info.block_size, 512);
    assert_eq!(info.block_count, 128);
    assert_eq!(info.name_max, 255);
    assert_eq!(info.file_max, 2_147_483_647);
    assert_eq!(info.attr_max, 1022);
    let mut needs = GState::zero();
    needs.tag = 0x200;
    let info = fs_stat(&mut fs.ctx, fs.root, &needs, 255, 2_147_483_647, 1022).unwrap();
    assert_eq!(info.disk_version, 0x0002_0001);
}

fn write_file(fs: &mut Fs, path: &str, data: &[u8]) {
    let mut f = File::open(
        &mut fs.ctx,
        &mut fs.root,
        &mut fs.lookahead,
        path,
        255,
        255,
        OpenFlags::new(OpenFlags::WRONLY | OpenFlags::CREAT),
        &fs.gstate,
        &mut fs.gdisk,
        &mut fs.gdelta,
    )
    .unwrap();
    f.write(&mut fs.ctx, fs.root, &mut fs.lookahead, 255, lp_littlefs::file::FILE_MAX, data).unwrap();
    f.close(&mut fs.ctx, &mut fs.root, &mut fs.lookahead, 255, &fs.gstate, &mut fs.gdisk, &mut fs.gdelta).unwrap();
}

fn read_file(fs: &mut Fs, path: &str) -> Vec<u8> {
    let mut f = File::open(
        &mut fs.ctx,
        &mut fs.root,
        &mut fs.lookahead,
        path,
        255,
        255,
        OpenFlags::new(OpenFlags::RDONLY),
        &fs.gstate,
        &mut fs.gdisk,
        &mut fs.gdelta,
    )
    .unwrap();
    let mut out = Vec::new();
    let mut buf = [0u8; 64];
    loop {
        let n = f.read(&mut fs.ctx, &mut buf).unwrap();
        if n == 0 {
            break;
        }
        out.extend_from_slice(&buf[..n]);
    }
    out
}

#[test]
fn rename_in_same_directory_keeps_content() {
    let mut fs = mounted();
    write_file(&mut fs, "a", b"apple");
    rename_path(&mut fs, "a", "b").unwrap();
    assert!(matches!(stat(&mut fs.ctx, fs.root, "a", 255), Err(Error::Noent)));
    assert_eq!(read_file(&mut fs, "b"), b"apple");
    assert_eq!(names(&mut fs, "/"), vec![("b".to_string(), FileType::Reg)]);
}

#[test]
fn rename_into_directory_and_dirs() {
    let mut fs = mounted();
    make_dir(&mut fs, "d").unwrap();
    write_file(&mut fs, "f", b"fig");
    rename_path(&mut fs, "f", "d/g").unwrap();
    assert_eq!(names(&mut fs, "/"), vec![("d".to_string(), FileType::Dir)]);
    assert_eq!(names(&mut fs, "d"), vec![("g".to_string(), FileType::Reg)]);
    assert_eq!(read_file(&mut fs, "d/g"), b"fig");
    rename_path(&mut fs, "d", "e").unwrap();
    assert_eq!(names(&mut fs, "e"), vec![("g".to_string(), FileType::Reg)]);
    assert_eq!(read_file(&mut fs, "e/g"), b"fig");
}

#[test]
fn rename_replaces_and_errors() {
    let mut fs = mounted();
    write_file(&mut fs, "x", b"one");
    write_file(&mut fs, "y", b"two");
    rename_path(&mut fs, "x", "y").unwrap();
    assert_eq!(read_file(&mut fs, "y"), b"one");
    assert!(matches!(stat(&mut fs.ctx, fs.root, "x", 255), Err(Error::Noent)));
    make_dir(&mut fs, "p").unwrap();
    make_dir(&mut fs, "q").unwrap();
    create_file(&mut fs, "q/inner");
    assert!(matches!(rename_path(&mut fs, "y", "p"), Err(Error::IsDir)));
    assert!(matches!(rename_path(&mut fs, "p", "y"), Err(Error::NotDir)));
    assert!(matches!(rename_path(&mut fs, "p", "q"), Err(Error::NotEmpty)));
    assert!(matches!(rename_path(&mut fs, "p", "p/sub"), Err(Error::Inval)));
    assert!(matches!(rename_path(&mut fs, "/", "z"), Err(Error::Inval)));
    assert!(matches!(rename_path(&mut fs, "nothing", "z"), Err(Error::Noent)));
    rename_path(&mut fs, "y", "y").unwrap();
    assert_eq!(read_file(&mut fs, "y"), b"one");
}

#[test]
fn alloc_hands_out_free_distinct_blocks() {
    let mut fs = mounted();
    make_dir(&mut fs, "taken").unwrap();
    let used = lp_littlefs::traverse::fs_traverse(&mut fs.ctx, fs.root, true).unwrap();
    let mut la = Lookahead::new(&fs.ctx.config);
    let mut got = Vec::new();
    for _ in 0..20 {
        let b = lp_littlefs::lookahead::lfs_alloc(&mut fs.ctx, fs.root, &mut la).unwrap();
        assert!(!used.contains(&b), "block {} is in use", b);
        assert!(!got.contains(&b));
        got.push(b);
    }
}

#[test]
fn parent_and_predecessor_of_a_new_directory() {
    let mut fs = mounted();
    make_dir(&mut fs, "a").unwrap();
    let child = Dir::open(&mut fs.ctx, fs.root, "a", 255).unwrap().head;
    let (pdir, id) = fs_parent(&mut fs.ctx, fs.root, child, 255).unwrap().unwrap();
    assert!(pdir.pair == fs.root || pdir.pair == [fs.root[1], fs.root[0]]);
    assert_eq!(id, 1);
    // The new pair is linked into the metadata list right after the root pair.
    let pred = fs_pred(&mut fs.ctx, fs.root, child).unwrap().unwrap();
    assert!(pred.tail == child || pred.tail == [child[1], child[0]]);
    // Nothing holds the root's pair as a directory.
    let root = fs.root;
    assert!(fs_parent(&mut fs.ctx, root, root, 255).unwrap().is_none());
}

#[test]
fn the_root_is_found_at_once_as_the_start_of_the_list() {
    let mut fs = mounted();
    let root = fs.root;
    let d = fs_pred(&mut fs.ctx, root, root).unwrap().unwrap();
    assert_eq!(d.tail, root);
    assert_eq!(d.pair, [0xffff_ffff, 0xffff_ffff]);
}
