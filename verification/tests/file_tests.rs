use lp_littlefs::bdcache::{new_prog_cache, new_read_cache, BdContext};
use lp_littlefs::block::RamBlockDevice;
use lp_littlefs::config::Config;
use lp_littlefs::error::Error;
use lp_littlefs::file::{File, FILE_MAX};
use lp_littlefs::gstate::GState;
use lp_littlefs::info::{OpenFlags, SeekWhence};
use lp_littlefs::lookahead::Lookahead;

struct Fs {
    ctx: BdContext<RamBlockDevice>,
    root: [u32; 2],
    lookahead: Lookahead,
    gstate: GState,
    gdisk: GState,
    gdelta: GState,
}

fn mounted() -> Fs {
    let config = Config::default_for_tests(128);
    let bd = RamBlockDevice::new(config.block_size, config.block_count);
    let rcache = new_read_cache(&config).unwrap();
    let pcache = new_prog_cache(&config).unwrap();
    let mut ctx = BdContext::new(bd, config, rcache, pcache);
    lp_littlefs::mkfs::format(&mut ctx).unwrap();
    let lookahead = Lookahead::new(&ctx.config);
    Fs { ctx, root: [0, 1], lookahead, gstate: GState::zero(), gdisk: GState::zero(), gdelta: GState::zero() }
}

fn open(fs: &mut Fs, path: &str, flags: u32) -> Result<File, Error> {
    File::open(
        &mut fs.ctx,
        &mut fs.root,
        &mut fs.lookahead,
        path,
        255,
        255,
        OpenFlags::new(flags),
        &fs.gstate,
        &mut fs.gdisk,
        &mut fs.gdelta,
    )
}

fn close(fs: &mut Fs, f: File) {
    f.close(&mut fs.ctx, &mut fs.root, &mut fs.lookahead, 255, &fs.gstate, &mut fs.gdisk, &mut fs.gdelta).unwrap();
}

fn write(fs: &mut Fs, f: &mut File, data: &[u8]) -> Result<usize, Error> {
    f.write(&mut fs.ctx, fs.root, &mut fs.lookahead, 255, FILE_MAX, data)
}

#[test]
fn file_create_write_read_back_inline() {
    let mut fs = mounted();
    let mut f = open(&mut fs, "hello", OpenFlags::WRONLY | OpenFlags::CREAT).unwrap();
    assert_eq!(write(&mut fs, &mut f, b"Hello World!").unwrap(), 12);
    close(&mut fs, f);

    let mut f = open(&mut fs, "hello", OpenFlags::RDONLY).unwrap();
    assert_eq!(f.size(), 12);
    let mut buf = [0u8; 32];
    let n = f.read(&mut fs.ctx, &mut buf).unwrap();
    assert_eq!(n, 12);
    assert_eq!(&buf[..n], b"Hello World!");
    assert_eq!(f.read(&mut fs.ctx, &mut buf).unwrap(), 0);
}

#[test]
fn file_open_errors() {
    let mut fs = mounted();
    assert!(matches!(open(&mut fs, "missing", OpenFlags::RDONLY), Err(Error::Noent)));
    assert!(matches!(open(&mut fs, "/", OpenFlags::RDONLY), Err(Error::IsDir)));
    assert!(matches!(open(&mut fs, "", OpenFlags::RDONLY), Err(Error::Inval)));
    let f = open(&mut fs, "a", OpenFlags::WRONLY | OpenFlags::CREAT).unwrap();
    close(&mut fs, f);
    assert!(matches!(
        open(&mut fs, "a", OpenFlags::WRONLY | OpenFlags::CREAT | OpenFlags::EXCL),
        Err(Error::Exist)
    ));
    assert!(matches!(open(&mut fs, "b", OpenFlags::WRONLY), Err(Error::Noent)));
}

#[test]
fn file_seek_tell_rewind() {
    let mut fs = mounted();
    let mut f = open(&mut fs, "s", OpenFlags::RDWR | OpenFlags::CREAT).unwrap();
    write(&mut fs, &mut f, b"0123456789").unwrap();
    assert_eq!(f.tell(), 10);
    assert_eq!(f.seek(3, SeekWhence::Start).unwrap(), 3);
    let mut buf = [0u8; 4];
    assert_eq!(f.read(&mut fs.ctx, &mut buf).unwrap(), 4);
    assert_eq!(&buf, b"3456");
    assert_eq!(f.seek(-2, SeekWhence::End).unwrap(), 8);
    assert_eq!(f.seek(100, SeekWhence::Cur).unwrap(), 10);
    assert_eq!(f.seek(-100, SeekWhence::Cur).unwrap(), 0);
    f.seek(5, SeekWhence::Start).unwrap();
    f.rewind().unwrap();
    assert_eq!(f.tell(), 0);
    close(&mut fs, f);
}

#[test]
fn file_write_past_file_max_is_fbig() {
    let mut fs = mounted();
    let mut f = open(&mut fs, "big", OpenFlags::WRONLY | OpenFlags::CREAT).unwrap();
    let r = f.write(&mut fs.ctx, fs.root, &mut fs.lookahead, 255, 4, b"hello");
    assert!(matches!(r, Err(Error::Fbig)));
}

#[test]
fn file_truncate_inline() {
    let mut fs = mounted();
    let mut f = open(&mut fs, "t", OpenFlags::RDWR | OpenFlags::CREAT).unwrap();
    write(&mut fs, &mut f, b"abcdefgh").unwrap();
    f.truncate(&mut fs.ctx, &mut fs.root, &mut fs.lookahead, 255, 3, 255, &fs.gstate, &mut fs.gdisk, &mut fs.gdelta)
        .unwrap();
    assert_eq!(f.size(), 3);
    assert_eq!(f.tell(), 3);
    f.rewind().unwrap();
    let mut buf = [0u8; 8];
    let n = f.read(&mut fs.ctx, &mut buf).unwrap();
    assert_eq!(&buf[..n], b"abc");
    close(&mut fs, f);
}

#[test]
fn file_append_keeps_content() {
    let mut fs = mounted();
    let mut f = open(&mut fs, "log", OpenFlags::WRONLY | OpenFlags::CREAT).unwrap();
    write(&mut fs, &mut f, b"one,").unwrap();
    close(&mut fs, f);
    let mut f = open(&mut fs, "log", OpenFlags::RDWR | OpenFlags::APPEND).unwrap();
    assert_eq!(f.tell(), 4);
    write(&mut fs, &mut f, b"two").unwrap();
    close(&mut fs, f);
    let mut f = open(&mut fs, "log", OpenFlags::RDONLY).unwrap();
    let mut buf = [0u8; 16];
    let n = f.read(&mut fs.ctx, &mut buf).unwrap();
    assert_eq!(&buf[..n], b"one,two");
}

#[test]
fn file_large_write_moves_out_of_line() {
    let mut fs = mounted();
    let data: Vec<u8> = (0..1500u32).map(|i| (i % 251) as u8).collect();
    let mut f = open(&mut fs, "large", OpenFlags::WRONLY | OpenFlags::CREAT).unwrap();
    for chunk in data.chunks(100) {
        assert_eq!(write(&mut fs, &mut f, chunk).unwrap(), chunk.len());
    }
    assert!(!f.inline);
    close(&mut fs, f);

    let mut f = open(&mut fs, "large", OpenFlags::RDONLY).unwrap();
    assert_eq!(f.size(), 1500);
    let mut buf = vec![0u8; 2000];
    let mut got = 0usize;
    loop {
        let mut chunk = [0u8; 300];
        let n = f.read(&mut fs.ctx, &mut chunk).unwrap();
        if n == 0 {
            break;
        }
        buf[got..got + n].copy_from_slice(&chunk[..n]);
        got += n;
    }
    assert_eq!(got, 1500);
    assert_eq!(&buf[..1500], &data[..]);
}

#[test]
fn file_overwrite_read_back_inline() {
    let mut fs = mounted();
    let mut f = open(&mut fs, "w", OpenFlags::RDWR | OpenFlags::CREAT).unwrap();
    write(&mut fs, &mut f, b"abcdef").unwrap();
    f.seek(2, SeekWhence::Start).unwrap();
    write(&mut fs, &mut f, b"XY").unwrap();
    assert_eq!(f.seek(8, SeekWhence::Start).unwrap(), 6);
    write(&mut fs, &mut f, b"Z").unwrap();
    f.seek(0, SeekWhence::Start).unwrap();
    let mut buf = [0xaau8; 16];
    let n = f.read(&mut fs.ctx, &mut buf).unwrap();
    assert_eq!(n, 7);
    assert_eq!(&buf[..7], b"abXYefZ");
    assert_eq!(buf[7], 0xaa);
    close(&mut fs, f);
}

#[test]
fn inline_write_and_shrink_succeed_without_the_device() {
    let mut fs = mounted();
    let mut f = open(&mut fs, "small", OpenFlags::WRONLY | OpenFlags::CREAT).unwrap();
    assert_eq!(f.write(&mut fs.ctx, fs.root, &mut fs.lookahead, 255, FILE_MAX, b"abcdef").unwrap(), 6);
    assert_eq!(f.size(), 6);
    f.truncate(&mut fs.ctx, &mut fs.root, &mut fs.lookahead, 255, 3, 255, &fs.gstate, &mut fs.gdisk, &mut fs.gdelta).unwrap();
    assert_eq!(f.size(), 3);
    assert_eq!(f.tell(), 3);
}

#[test]
fn truncating_a_clean_inline_file_sets_its_size() {
    let mut fs = mounted();
    let mut f = open(&mut fs, "c", OpenFlags::WRONLY | OpenFlags::CREAT).unwrap();
    write(&mut fs, &mut f, b"abcdefgh").unwrap();
    close(&mut fs, f);
    let mut g = open(&mut fs, "c", OpenFlags::RDWR).unwrap();
    assert_eq!(g.size(), 8);
    g.truncate(&mut fs.ctx, &mut fs.root, &mut fs.lookahead, 255, 5, 255, &fs.gstate, &mut fs.gdisk, &mut fs.gdelta).unwrap();
    assert_eq!(g.size(), 5);
    g.truncate(&mut fs.ctx, &mut fs.root, &mut fs.lookahead, 255, 7, 255, &fs.gstate, &mut fs.gdisk, &mut fs.gdelta).unwrap();
    assert_eq!(g.size(), 7);
    g.rewind().unwrap();
    let mut buf = [0u8; 16];
    let n = g.read(&mut fs.ctx, &mut buf).unwrap();
    assert_eq!(&buf[..n], b"abcde\0\0");
    close(&mut fs, g);
    let mut h = open(&mut fs, "c", OpenFlags::RDONLY).unwrap();
    let n = h.read(&mut fs.ctx, &mut buf).unwrap();
    assert_eq!(&buf[..n], b"abcde\0\0");
    close(&mut fs, h);
}
