use lp_littlefs::bdcache::{new_prog_cache, new_read_cache, BdContext, CachedBlockDevice};
use lp_littlefs::block::RamBlockDevice;
use lp_littlefs::config::Config;
use lp_littlefs::crc::crc32;
use lp_littlefs::gstate::{preporphans, GState};
use lp_littlefs::lookahead::{lfs_alloc, Lookahead};
use lp_littlefs::superblock::Superblock;
use lp_littlefs::traverse::{ctz_traverse, fs_traverse};
use lp_littlefs::block::block_crc;
use lp_littlefs::metadata::{dir_traverse_tags, fetch_from_blocks, fetch_metadata_pair, get_superblock_from_dir};
use lp_littlefs::path::{find_insertion_id, find_name_in_dir_pair};
use lp_littlefs::error::Error;
use lp_littlefs::parent::{fs_parent, fs_pred};
use lp_littlefs::tag::{lfs_mktag, lfs_tag_id, lfs_tag_isvalid, lfs_tag_size, lfs_tag_type3};
use lp_littlefs::util::{be32_array, le32_array, read_be32, read_le32};

fn ctx() -> BdContext<RamBlockDevice> {
    let config = Config::default_for_tests(16);
    let bd = RamBlockDevice::new(config.block_size, config.block_count);
    let rcache = new_read_cache(&config).unwrap();
    let pcache = new_prog_cache(&config).unwrap();
    BdContext::new(bd, config, rcache, pcache)
}

#[test]
fn cached_read_after_prog_gives_data_back() {
    let mut c = ctx();
    c.erase(3).unwrap();
    c.prog(3, 16, b"0123456789abcdef").unwrap();
    let mut buf = [0u8; 16];
    c.read(3, 16, &mut buf).unwrap();
    assert_eq!(&buf, b"0123456789abcdef");
    c.sync().unwrap();
    let mut buf2 = [0u8; 6];
    c.read(3, 20, &mut buf2).unwrap();
    assert_eq!(&buf2, b"456789");
}

#[test]
fn crc_of_check_string_and_concatenation() {
    let whole = crc32(0xffff_ffff, b"123456789");
    assert_eq!(whole, 0x340b_c6d9);
    let part = crc32(crc32(0xffff_ffff, b"1234"), b"56789");
    assert_eq!(part, whole);
}

#[test]
fn gstate_bytes_round_trip_and_xor_cancels() {
    let g = GState { tag: 0x4ff0_0400, pair: [7, 9] };
    let bytes = g.as_le_bytes();
    let back = GState::from_le_bytes(&bytes).unwrap();
    assert_eq!(back, g);
    let mut x = g;
    let d = GState { tag: 0x1234_5678, pair: [0xdead_beef, 3] };
    x.xor(&d);
    x.xor(&d);
    assert_eq!(x, g);
    let mut z = g;
    z.xor(&g);
    assert!(z.iszero());
}

#[test]
fn superblock_encode_decode_round_trip() {
    let sb = Superblock {
        version: 0x0002_0001,
        block_size: 512,
        block_count: 128,
        name_max: 255,
        file_max: 2_147_483_647,
        attr_max: 1022,
    };
    let bytes = sb.encode();
    assert_eq!(bytes.len(), 24);
    assert_eq!(Superblock::decode(&bytes, 0), sb);
}

#[test]
fn mktag_fields_read_back() {
    let t = lfs_mktag(0x201, 0x15, 24);
    assert_eq!(lfs_tag_type3(t), 0x201);
    assert_eq!(lfs_tag_id(t), 0x15);
    assert_eq!(lfs_tag_size(t), 24);
    assert!(lfs_tag_isvalid(t));
    assert!(!lfs_tag_isvalid(lfs_mktag(0x801, 0, 0)));
}

#[test]
fn byte_codecs_round_trip() {
    let x = 0x0102_0304u32;
    assert_eq!(le32_array(x), [4, 3, 2, 1]);
    assert_eq!(read_le32(&le32_array(x), 0), x);
    assert_eq!(be32_array(x), [1, 2, 3, 4]);
    assert_eq!(read_be32(&be32_array(x), 0), x);
}

#[test]
fn ctz_traverse_lists_every_block_from_head_to_first() {
    // A four-block skip-list in blocks 10 (index 0), 11, 12 and 13 (head, index 3):
    // block 13 points to 12; block 12 to 11 and 10; block 11 to 10.
    let mut c = ctx();
    for b in 10..14u32 {
        c.erase(b).unwrap();
    }
    let mut p13 = [0u8; 16];
    p13[0..4].copy_from_slice(&12u32.to_le_bytes());
    c.prog(13, 0, &p13).unwrap();
    let mut p12 = [0u8; 16];
    p12[0..4].copy_from_slice(&11u32.to_le_bytes());
    p12[4..8].copy_from_slice(&10u32.to_le_bytes());
    c.prog(12, 0, &p12).unwrap();
    let mut p11 = [0u8; 16];
    p11[0..4].copy_from_slice(&10u32.to_le_bytes());
    c.prog(11, 0, &p11).unwrap();
    c.sync().unwrap();
    // 1525 bytes at block size 512: the last byte lies in block index 3.
    let mut out = vec![99u32];
    ctz_traverse(&mut c, 13, 1525, &mut out).unwrap();
    assert_eq!(out, vec![99, 13, 12, 11, 10]);
    let mut one = Vec::new();
    ctz_traverse(&mut c, 10, 512, &mut one).unwrap();
    assert_eq!(one, vec![10]);
}

#[test]
fn empty_crc_is_the_seed_and_null_roots_walk_nothing() {
    let mut c = ctx();
    assert_eq!(c.crc(3, 0, 0, 0x1234_5678).unwrap(), 0x1234_5678);
    assert_eq!(block_crc(&c.bd, 3, 0, 0, 77).unwrap(), 77);
    let null = [0xffff_ffffu32, 0xffff_ffff];
    assert!(fs_traverse(&mut c, null, false).unwrap().is_empty());
    assert!(fs_pred(&mut c, null, [2, 3]).unwrap().is_none());
    assert!(fs_parent(&mut c, null, [2, 3], 255).unwrap().is_none());
}

#[test]
fn superblock_read_from_a_formatted_root() {
    let mut c = ctx();
    lp_littlefs::mkfs::format(&mut c).unwrap();
    let root = fetch_metadata_pair(&mut c, [0, 1]).unwrap();
    let sb = get_superblock_from_dir(&root).unwrap();
    assert_eq!(sb.block_size, 512);
    assert_eq!(sb.block_count, 16);
    assert_eq!(sb.name_max, 255);
}

#[test]
fn cached_device_reads_back_a_program_and_refuses_bad_caches() {
    let config = Config::default_for_tests(16);
    let bd = RamBlockDevice::new(config.block_size, config.block_count);
    let mut dev = CachedBlockDevice::new(bd, config).unwrap();
    dev.erase(2).unwrap();
    dev.prog(2, 32, b"hello, littlefs!").unwrap();
    let mut buf = [0u8; 16];
    dev.read(2, 32, &mut buf).unwrap();
    assert_eq!(&buf, b"hello, littlefs!");
    dev.sync().unwrap();
    let mut tail = [0u8; 8];
    dev.read(2, 40, &mut tail).unwrap();
    assert_eq!(&tail, b"ittlefs!");
    let mut bad = Config::default_for_tests(16);
    bad.cache_size = 24;
    let bd2 = RamBlockDevice::new(bad.block_size, bad.block_count);
    assert!(matches!(CachedBlockDevice::new(bd2, bad), Err(Error::Inval)));
}

#[test]
fn fetch_from_blank_blocks_is_corrupt() {
    let b0 = vec![0xffu8; 512];
    let b1 = vec![0xffu8; 512];
    let mut seed = None;
    assert!(matches!(fetch_from_blocks(&b0, &b1, [4, 5], 16, 0x0002_0001, &mut seed), Err(Error::Corrupt)));
}

#[test]
fn formatted_root_names_and_tags_stay_inside_the_log() {
    let mut c = ctx();
    lp_littlefs::mkfs::format(&mut c).unwrap();
    let root = fetch_metadata_pair(&mut c, [0, 1]).unwrap();
    // Only the superblock entry lives in the root: nothing is named "x", and a new
    // name goes after it, at id 1.
    assert!(matches!(find_name_in_dir_pair(&root, b"x", 255, 1, None), Err(Error::Noent)));
    assert_eq!(find_insertion_id(&root, b"x", 255, None).unwrap(), 1);
    let tags = dir_traverse_tags(&root, 0, 0x3ff, 0).unwrap();
    assert!(!tags.is_empty());
    for t in tags.iter() {
        assert!(t.off + t.size <= root.off);
    }
}

#[test]
fn format_leaves_one_superblock_entry() {
    let mut c = ctx();
    lp_littlefs::mkfs::format(&mut c).unwrap();
    let d = fetch_metadata_pair(&mut c, [0, 1]).unwrap();
    assert_eq!(d.count, 1);
    assert!(!d.split);
    assert_eq!(lp_littlefs::mkfs::lfs_mount(&mut c), 0);
}

#[test]
fn orphan_count_round_trip() {
    let mut g = GState::zero();
    preporphans(&mut g, 3).unwrap();
    assert_eq!(g.getorphans(), 3);
    assert!(g.hasorphans());
    assert_eq!(g.tag, 0x8000_0003);
    preporphans(&mut g, -3).unwrap();
    assert_eq!(g.getorphans(), 0);
    assert!(!g.hasorphans());
    assert_eq!(g.tag, 0);
    // A count taken below zero and brought back borrows and returns the same bits.
    let mut h = GState { tag: 0x0040_0000, pair: [0, 0] };
    preporphans(&mut h, -1).unwrap();
    assert!(h.hasorphans());
    preporphans(&mut h, 1).unwrap();
    assert_eq!(h.tag, 0x0040_0000);
}

#[test]
fn allocations_since_a_checkpoint_never_repeat() {
    let mut c = ctx();
    let mut la = Lookahead::new(&c.config);
    let mut got = Vec::new();
    loop {
        match lfs_alloc(&mut c, [0xffff_ffff, 0xffff_ffff], &mut la) {
            Ok(b) => {
                assert!(!got.contains(&b), "block {} handed out twice", b);
                got.push(b);
            }
            Err(e) => {
                assert_eq!(e, Error::Nospc);
                break;
            }
        }
    }
    assert_eq!(got.len(), c.config.block_count as usize);
}

#[test]
fn new_pairs_take_two_different_blocks() {
    let mut c = ctx();
    let mut la = Lookahead::new(&c.config);
    for _ in 0..5 {
        let d = lp_littlefs::commit::dir_alloc(&mut c, [0xffff_ffff, 0xffff_ffff], &mut la).unwrap();
        assert_ne!(d.pair[0], d.pair[1]);
        assert_eq!(d.rev, 0);
        assert_eq!(d.count, 0);
    }
}
