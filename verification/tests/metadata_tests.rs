use lp_littlefs::bdcache::{new_prog_cache, new_read_cache, BdContext};
use lp_littlefs::block::RamBlockDevice;
use lp_littlefs::commit;
use lp_littlefs::commit::CommitAttr;
use lp_littlefs::config::Config;

use lp_littlefs::metadata::{
    dir_traverse_size, fetch_metadata_pair, get_entry_info, get_inline_slice, get_tag_backwards,
    read_superblock,
};
use lp_littlefs::superblock::{DISK_VERSION, SUPERBLOCK_SIZE};
use lp_littlefs::tag;

fn formatted_ctx() -> BdContext<RamBlockDevice> {
    let config = Config::default_for_tests(128);
    let bd = RamBlockDevice::new(config.block_size, config.block_count);
    let rcache = new_read_cache(&config).unwrap();
    let pcache = new_prog_cache(&config).unwrap();
    let mut ctx = BdContext::new(bd, config, rcache, pcache);
    lp_littlefs::mkfs::format(&mut ctx).unwrap();
    ctx
}

fn mkdir_then_rename(ctx: &mut BdContext<RamBlockDevice>) {
    let mut root = fetch_metadata_pair(ctx, [0, 1]).unwrap();
    let d0_pair = [2u32, 3];
    let mkdir_attrs = [
        CommitAttr::create(1),
        CommitAttr::name_dir(1, b"d0"),
        CommitAttr::dir_struct(1, d0_pair),
        CommitAttr::soft_tail(d0_pair),
    ];
    commit::dir_commit_append(ctx, &mut root, &mkdir_attrs, &mut None, DISK_VERSION).unwrap();
    root = fetch_metadata_pair(ctx, [0, 1]).unwrap();

    let rename_attrs = [
        CommitAttr::create(2),
        CommitAttr::name_dir(2, b"x0"),
        CommitAttr::dir_struct(2, d0_pair),
        CommitAttr::delete(1),
    ];
    commit::dir_commit_append(ctx, &mut root, &rename_attrs, &mut None, DISK_VERSION).unwrap();
    ctx.sync().unwrap();
}

#[test]
fn fetch_metadata_pair_after_format() {
    let mut ctx = formatted_ctx();
    let dir = fetch_metadata_pair(&mut ctx, [0, 1]).unwrap();
    assert_eq!(dir.pair[0], 0);
    assert_eq!(dir.count, 1);
    assert!(!dir.split);
}

#[test]
fn get_tag_backwards_inlinestruct_id0() {
    let mut ctx = formatted_ctx();
    let dir = fetch_metadata_pair(&mut ctx, [0, 1]).unwrap();
    let gmask = 0x7ff0_fc00;
    let gtag = (tag::TYPE_INLINESTRUCT << 20) | SUPERBLOCK_SIZE as u32;
    let r = get_tag_backwards(&dir, gmask, gtag).unwrap();
    assert!(r.is_some());
    let (_t, off, size) = r.unwrap();
    assert_eq!(size, SUPERBLOCK_SIZE as u32);
    assert!(off + SUPERBLOCK_SIZE <= dir.block.len());
}

#[test]
fn get_entry_info_superblock_id0() {
    let mut ctx = formatted_ctx();
    let dir = fetch_metadata_pair(&mut ctx, [0, 1]).unwrap();
    let info = get_entry_info(&dir, 0, 255).unwrap();
    assert_eq!(info.name().unwrap(), "littlefs");
}

#[test]
fn read_superblock_after_format() {
    let mut ctx = formatted_ctx();
    let sb = read_superblock(&mut ctx, [0, 1]).unwrap();
    assert_eq!(sb.block_size, ctx.config.block_size);
    assert_eq!(sb.block_count, ctx.config.block_count);
    assert_eq!(sb.name_max, 255);
}

#[test]
fn fetch_after_append_commit() {
    let mut ctx = formatted_ctx();
    let mut root = fetch_metadata_pair(&mut ctx, [0, 1]).unwrap();
    let new_pair = [2u32, 3];
    let attrs = [
        CommitAttr::create(1),
        CommitAttr::name_dir(1, b"d0"),
        CommitAttr::dir_struct(1, new_pair),
        CommitAttr::soft_tail(new_pair),
    ];
    commit::dir_commit_append(&mut ctx, &mut root, &attrs, &mut None, DISK_VERSION).unwrap();
    ctx.sync().unwrap();

    let dir = fetch_metadata_pair(&mut ctx, [0, 1]).unwrap();
    assert!(dir.count >= 2, "expected count >= 2, got {} (off={})", dir.count, dir.off);

    let name_gtag = (tag::TYPE_REG << 20) | (1 << 10) | 256;
    let name_result = get_tag_backwards(&dir, 0x780f_fc00, name_gtag).unwrap();
    assert!(name_result.is_some(), "NAME(id=1) not found (off={}, etag=0x{:08x})", dir.off, dir.etag);

    let struct_gtag = (tag::TYPE_STRUCT << 20) | (1 << 10) | 8;
    let struct_result = get_tag_backwards(&dir, 0x700f_fc00, struct_gtag).unwrap();
    assert!(struct_result.is_some(), "STRUCT(id=1) not found");

    let info = get_entry_info(&dir, 1, 255).unwrap();
    assert_eq!(info.name().unwrap(), "d0");
}

#[test]
fn get_tag_backwards_name2_after_rename() {
    let mut ctx = formatted_ctx();
    mkdir_then_rename(&mut ctx);
    let dir = fetch_metadata_pair(&mut ctx, [0, 1]).unwrap();
    let gmask = 0x780ffc00;
    let name_gtag = (tag::TYPE_NAME << 20) | (2 << 10) | 256;
    let r = get_tag_backwards(&dir, gmask, name_gtag).unwrap();
    assert!(r.is_some(), "NAME 2 must be found; dir.off={} etag=0x{:08x} count={}", dir.off, dir.etag, dir.count);
}

#[test]
fn get_tag_backwards_struct2_after_rename() {
    let mut ctx = formatted_ctx();
    mkdir_then_rename(&mut ctx);
    let dir = fetch_metadata_pair(&mut ctx, [0, 1]).unwrap();
    let gmask = 0x700ffc00;
    let struct_gtag = (tag::TYPE_STRUCT << 20) | (2 << 10) | 8;
    let r = get_tag_backwards(&dir, gmask, struct_gtag).unwrap();
    assert!(r.is_some(), "STRUCT 2 must be found; dir.off={} etag=0x{:08x}", dir.off, dir.etag);
}

#[test]
fn get_tag_backwards_delete1_after_rename() {
    let mut ctx = formatted_ctx();
    mkdir_then_rename(&mut ctx);
    let dir = fetch_metadata_pair(&mut ctx, [0, 1]).unwrap();
    let gmask = 0x700ffc00;
    let delete_gtag = (tag::TYPE_DELETE << 20) | (1 << 10);
    let r = get_tag_backwards(&dir, gmask, delete_gtag).unwrap();
    assert!(r.is_some(), "DELETE 1 must be found; dir.off={} etag=0x{:08x}", dir.off, dir.etag);
}

#[test]
fn get_tag_backwards_create2_noent() {
    let mut ctx = formatted_ctx();
    mkdir_then_rename(&mut ctx);
    let dir = fetch_metadata_pair(&mut ctx, [0, 1]).unwrap();
    let gmask = 0x7ff0fc00;
    let create_gtag = (tag::TYPE_CREATE << 20) | (2 << 10) | 0;
    let r = get_tag_backwards(&dir, gmask, create_gtag).unwrap();
    assert!(r.is_none(), "CREATE 2 search must return None (found where we were created); got {:?}", r);
}

#[test]
fn fetch_after_rename_commit() {
    let mut ctx = formatted_ctx();
    mkdir_then_rename(&mut ctx);
    let dir = fetch_metadata_pair(&mut ctx, [0, 1]).unwrap();
    assert!(dir.count >= 3, "rename creates id 2; count must be >= 3 for find/stat, got {}", dir.count);
    let info = get_entry_info(&dir, 2, 255).unwrap();
    assert_eq!(info.name().unwrap(), "x0");
    assert!(get_entry_info(&dir, 1, 255).is_err());
}

#[test]
fn dir_traverse_size_formatted() {
    let mut ctx = formatted_ctx();
    let dir = fetch_metadata_pair(&mut ctx, [0, 1]).unwrap();
    let size = dir_traverse_size(&dir, 0, 1).unwrap();
    assert!(size > 0, "formatted root has superblock etc");
}

#[test]
fn dir_traverse_size_empty_range() {
    let mut ctx = formatted_ctx();
    let dir = fetch_metadata_pair(&mut ctx, [0, 1]).unwrap();
    let size = dir_traverse_size(&dir, 1, 1).unwrap();
    assert_eq!(size, 0);
}

#[test]
fn get_inline_slice_reads_file_data() {
    let mut ctx = formatted_ctx();
    let mut root = fetch_metadata_pair(&mut ctx, [0, 1]).unwrap();
    let content = b"Hello World!\0";
    let attrs = [
        CommitAttr::create(1),
        CommitAttr::name_reg(1, b"hello"),
        CommitAttr::inline_struct(1, content),
    ];
    commit::dir_commit_append(&mut ctx, &mut root, &attrs, &mut None, DISK_VERSION).unwrap();
    ctx.sync().unwrap();

    let dir = fetch_metadata_pair(&mut ctx, [0, 1]).unwrap();
    let mut buf = [0u8; 32];
    let n = get_inline_slice(&dir, 1, 0, &mut buf).unwrap();
    assert_eq!(n, content.len());
    assert_eq!(&buf[..n], content);

    let n2 = get_inline_slice(&dir, 1, 6, &mut buf).unwrap();
    assert_eq!(n2, content.len() - 6);
    assert_eq!(&buf[..n2], b"World!\0");
}

#[test]
fn dir_compact_preserves_content() {
    let mut ctx = formatted_ctx();
    let mut dir = fetch_metadata_pair(&mut ctx, [0u32, 1]).unwrap();
    let source = dir.clone();
    let mut lookahead = lp_littlefs::lookahead::Lookahead::new(&ctx.config);
    commit::dir_compact(
        &mut ctx,
        &mut dir,
        &source,
        0,
        1,
        &[],
        [0u32, 1],
        &mut lookahead,
        &mut None,
        DISK_VERSION,
    )
    .unwrap();
    ctx.sync().unwrap();

    let refetched = fetch_metadata_pair(&mut ctx, [0u32, 1]).unwrap();
    assert_eq!(refetched.count, 1);
    assert!(!refetched.split);
}
