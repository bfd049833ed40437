use machaos::ahci::{self, Ahci, AhciPort, Bringup, Poll, Step, Transfer, TransferStep};
use machaos::ata::{self, AtaDevice, Probe, SectorRun, SectorStep};
use machaos::crashlog;
use machaos::disk::{first_disk, Disk};
use machaos::fat::{self, FatError, Mount};
use machaos::fatname;
use machaos::rtc::DateTime;
use machaos::session::{self, SessionData, SessionWindow};
use machaos::settings::Settings;

const NOW: DateTime = DateTime { year: 2025, month: 1, day: 2, hour: 3, minute: 4, second: 6 };

fn device(media: Vec<u8>) -> AtaDevice {
    AtaDevice {
        base: 0x1F0,
        master: true,
        present: true,
        atapi: false,
        lba48: true,
        sectors: media.len() as u64 / 512,
        model: [b' '; 40],
        media,
    }
}

/// A FAT32 volume with clusters of one sector and an empty root directory.
fn volume() -> Vec<u8> {
    let mut m = vec![0u8; 512 * 200];
    m[11..13].copy_from_slice(&512u16.to_le_bytes());
    m[13] = 1;
    m[14..16].copy_from_slice(&2u16.to_le_bytes());
    m[16] = 1;
    m[32..36].copy_from_slice(&100u32.to_le_bytes());
    m[36..40].copy_from_slice(&1u32.to_le_bytes());
    m[44..48].copy_from_slice(&2u32.to_le_bytes());
    m[82..90].copy_from_slice(b"FAT32   ");
    m[510] = 0x55;
    m[511] = 0xAA;
    for (i, e) in [0x0FFF_FFF8u32, 0x0FFF_FFFF, 0x0FFF_FFFF].iter().enumerate() {
        m[1024 + 4 * i..1028 + 4 * i].copy_from_slice(&e.to_le_bytes());
    }
    m
}

fn mounted() -> Mount {
    let mut disk = Mount::new();
    assert!(fat::mount(&mut disk, Some(Disk::Ata(device(volume())))).is_ok());
    disk
}

fn names(disk: &Mount, path: &str) -> Vec<String> {
    match fat::list_dir(disk, path) {
        Ok(v) => v.iter().map(|e| e.name.clone()).collect(),
        Err(e) => panic!("{}", e.message()),
    }
}

fn message<T>(r: Result<T, FatError>) -> &'static str {
    match r {
        Ok(_) => "",
        Err(e) => e.message(),
    }
}

#[test]
fn written_files_read_back() {
    let mut disk = mounted();
    let data: Vec<u8> = (0..1500u32).map(|i| (i % 251) as u8).collect();
    assert!(fat::write_file(&mut disk, "/Hello World.txt", &data, NOW).is_ok());
    assert_eq!(fat::read_file(&disk, "/Hello World.txt").ok(), Some(data.clone()));
    assert_eq!(fat::read_file(&disk, "/hello world.TXT").ok(), Some(data));
    assert_eq!(names(&disk, "/"), vec!["Hello World.txt".to_string()]);
    assert!(fat::write_file(&mut disk, "/Hello World.txt", b"short", NOW).is_ok());
    assert_eq!(fat::read_file(&disk, "/Hello World.txt").ok(), Some(b"short".to_vec()));
    assert_eq!(names(&disk, "/").len(), 1);
}

#[test]
fn empty_files_can_be_replaced_and_removed() {
    let mut disk = mounted();
    assert!(fat::write_file(&mut disk, "/a.txt", b"", NOW).is_ok());
    assert_eq!(fat::read_file(&disk, "/a.txt").ok(), Some(vec![]));
    assert!(fat::write_file(&mut disk, "/a.txt", b"x", NOW).is_ok());
    assert_eq!(fat::read_file(&disk, "/a.txt").ok(), Some(b"x".to_vec()));
    assert!(fat::write_file(&mut disk, "/b.txt", b"", NOW).is_ok());
    assert!(fat::remove(&mut disk, "/b.txt").is_ok());
    assert_eq!(names(&disk, "/"), vec!["a.txt".to_string()]);
}

#[test]
fn directories_and_their_errors() {
    let mut disk = mounted();
    assert!(fat::make_dir(&mut disk, "/system", NOW).is_ok());
    assert_eq!(message(fat::make_dir(&mut disk, "/system", NOW)), "already exists");
    assert!(fat::write_file(&mut disk, "/system/x", b"1", NOW).is_ok());
    assert_eq!(message(fat::remove(&mut disk, "/system")), "directory not empty");
    assert_eq!(fat::is_dir(&disk, "/system").ok(), Some(true));
    assert_eq!(fat::is_dir(&disk, "/system/x").ok(), Some(false));
    assert_eq!(message(fat::read_file(&disk, "/nope")), "not found");
    assert_eq!(message(fat::list_dir(&disk, "/nope")), "not found");
    assert!(fat::remove(&mut disk, "/system/x").is_ok());
    assert!(fat::remove(&mut disk, "/system").is_ok());
    assert!(names(&disk, "/").is_empty());
    assert_eq!(message(fat::write_file(&mut disk, "/.hidden", b"1", NOW)), "invalid name");
}

#[test]
fn freed_clusters_are_free_again() {
    let mut disk = mounted();
    let before = fat::info(&disk).unwrap().free_clusters;
    assert!(fat::write_file(&mut disk, "/f", &vec![1; 5 * 512], NOW).is_ok());
    assert_eq!(fat::info(&disk).unwrap().free_clusters, before - 5);
    assert!(fat::remove(&mut disk, "/f").is_ok());
    assert_eq!(fat::info(&disk).unwrap().free_clusters, before);
    assert_eq!(message(fat::write_file(&mut disk, "/big", &vec![1; 512 * 500], NOW)), "out of space");
}

#[test]
fn files_move_between_directories() {
    let mut disk = mounted();
    assert!(fat::make_dir(&mut disk, "/d", NOW).is_ok());
    assert!(fat::write_file(&mut disk, "/f", b"data", NOW).is_ok());
    assert!(fat::move_file(&mut disk, "/f", "/d/f", NOW).is_ok());
    assert_eq!(fat::read_file(&disk, "/d/f").ok(), Some(b"data".to_vec()));
    assert_eq!(message(fat::read_file(&disk, "/f")), "not found");
    assert_eq!(message(fat::move_file(&mut disk, "/d", "/e", NOW)), "directory not empty");
}

#[test]
fn entries_behind_a_full_sector_tail_are_found() {
    let mut disk = mounted();
    for i in 0..7 {
        assert!(fat::write_file(&mut disk, &format!("/f{}", i), &[i], NOW).is_ok());
    }
    let long = "/a name that takes four slots in all.txt";
    assert!(fat::write_file(&mut disk, long, b"found", NOW).is_ok());
    assert_eq!(fat::read_file(&disk, long).ok(), Some(b"found".to_vec()));
    assert_eq!(names(&disk, "/").len(), 8);
    let dir = "/another long name for a directory";
    assert!(fat::make_dir(&mut disk, dir, NOW).is_ok());
    assert_eq!(fat::is_dir(&disk, dir).ok(), Some(true));
    assert!(names(&disk, dir).is_empty());
    assert_eq!(message(fat::make_dir(&mut disk, dir, NOW)), "already exists");
    for i in 0..7 {
        assert_eq!(fat::read_file(&disk, &format!("/f{}", i)).ok(), Some(vec![i]));
    }
}

#[test]
fn removing_keeps_the_other_entries_in_order() {
    let mut disk = mounted();
    for name in ["/first entry.txt", "/second.txt", "/third entry, with a long name.txt"] {
        assert!(fat::write_file(&mut disk, name, name.as_bytes(), NOW).is_ok());
    }
    assert!(fat::remove(&mut disk, "/SECOND.txt").is_ok());
    assert_eq!(
        names(&disk, "/"),
        vec!["first entry.txt".to_string(), "third entry, with a long name.txt".to_string()]
    );
    assert_eq!(message(fat::read_file(&disk, "/second.txt")), "not found");
    assert_eq!(message(fat::list_dir(&disk, "/second.txt")), "not found");
    assert_eq!(fat::read_file(&disk, "/First Entry.txt").ok(), Some(b"/first entry.txt".to_vec()));
    assert!(fat::write_file(&mut disk, "/second.txt", b"again", NOW).is_ok());
    assert!(fat::write_file(&mut disk, "/Second.TXT", b"once more", NOW).is_ok());
    let same = names(&disk, "/").iter().filter(|n| n.eq_ignore_ascii_case("second.txt")).count();
    assert_eq!(same, 1);
    assert_eq!(fat::read_file(&disk, "/second.txt").ok(), Some(b"once more".to_vec()));
    assert!(fat::move_file(&mut disk, "/second.txt", "/first entry.txt", NOW).is_ok());
    assert_eq!(fat::read_file(&disk, "/first entry.txt").ok(), Some(b"once more".to_vec()));
    assert_eq!(message(fat::read_file(&disk, "/second.txt")), "not found");
    assert_eq!(names(&disk, "/").len(), 2);
}

#[test]
fn moving_a_file_to_its_own_place_keeps_it() {
    let mut disk = mounted();
    assert!(fat::write_file(&mut disk, "/Note.txt", b"text", NOW).is_ok());
    assert!(fat::move_file(&mut disk, "/Note.txt", "/NOTE.TXT", NOW).is_ok());
    assert!(fat::move_file(&mut disk, "/note.txt", "//Note.txt", NOW).is_ok());
    assert_eq!(fat::read_file(&disk, "/Note.txt").ok(), Some(b"text".to_vec()));
    assert_eq!(names(&disk, "/"), vec!["Note.txt".to_string()]);
    assert_eq!(message(fat::move_file(&mut disk, "/gone", "/Gone", NOW)), "not found");
}

#[test]
fn a_volume_survives_being_mounted_again() {
    let mut disk = mounted();
    assert!(fat::write_file(&mut disk, "/keep", b"me", NOW).is_ok());
    let media = match disk.device() {
        Some(Disk::Ata(d)) => d.media.clone(),
        _ => panic!(),
    };
    let mut again = Mount::new();
    assert!(fat::mount(&mut again, Some(Disk::Ata(device(media)))).is_ok());
    assert_eq!(fat::read_file(&again, "/keep").ok(), Some(b"me".to_vec()));
}

#[test]
fn mounting_needs_a_volume() {
    let mut disk = Mount::new();
    assert!(!fat::mounted(&disk));
    assert_eq!(message(fat::mount(&mut disk, None)), "no disk mounted");
    assert_eq!(message(fat::mount(&mut disk, Some(Disk::Ata(device(vec![0; 2048]))))), "not a FAT32 volume");
    assert_eq!(message(fat::read_file(&disk, "/x")), "no disk mounted");
}

#[test]
fn a_volume_on_sata_works_too() {
    let a = Ahci {
        port: AhciPort { present: true, clb: 0, ct: 0, fb: 0, buf: 0 },
        sectors: 200,
        model: [0; 40],
        media: volume(),
    };
    let mut disk = Mount::new();
    let first = first_disk(Some(a), Some(device(vec![])));
    assert!(matches!(first, Some(Disk::Ahci(_))));
    assert!(fat::mount(&mut disk, first).is_ok());
    assert!(fat::write_file(&mut disk, "/s", b"ata", NOW).is_ok());
    assert_eq!(fat::read_file(&disk, "/s").ok(), Some(b"ata".to_vec()));
}

#[test]
fn first_disk_skips_optical_drives() {
    let mut d = device(vec![]);
    d.atapi = true;
    assert!(first_disk(None, Some(d)).is_none());
    assert!(matches!(first_disk(None, Some(device(vec![]))), Some(Disk::Ata(_))));
    assert!(first_disk(None, None).is_none());
}

#[test]
fn ata_transfers_and_errors() {
    let mut d = device(vec![0; 4 * 512]);
    assert!(d.write_sectors(1, 1, &[7u8; 512]).is_ok());
    let mut buf = vec![0u8; 1024];
    assert!(d.read_sectors(1, 2, &mut buf).is_ok());
    assert_eq!((buf[0], buf[511], buf[512]), (7, 7, 0));
    assert_eq!(d.read_sectors(0, 0, &mut buf), Err("invalid read request"));
    assert_eq!(d.read_sectors(0x1000_0000, 1, &mut buf), Err("LBA28 range exceeded"));
    d.present = false;
    assert_eq!(d.read_sectors(0, 1, &mut buf), Err("no ATA block device"));
    assert_eq!(d.drive_select(0x0300_0000), 0xE3);
}

#[test]
fn ata_identify_reads_model_and_size() {
    let mut words = vec![0u16; 256];
    words[0] = 0x0040;
    words[60] = 0x1000;
    for (i, pair) in b"QEMU HARDDISK   ".chunks(2).enumerate() {
        words[27 + i] = pair[0] as u16 * 256 + pair[1] as u16;
    }
    for i in 8..20 {
        words[27 + i] = 0x2020;
    }
    let probe = Probe {
        first_status: 0x50,
        idle: true,
        status: 0x58,
        mid: 0,
        hi: 0,
        offered: true,
        words,
        media: vec![],
    };
    let d = ata::identify(0x1F0, true, probe).unwrap();
    assert_eq!(d.model_string(), "QEMU HARDDISK");
    assert_eq!(d.sectors, 0x1000);
    let list = ata::init(vec![None, Some(d)]);
    assert_eq!(ata::count(&list), 1);
    assert_eq!(ata::describe(&list, 0).unwrap(), "[0] ATA QEMU HARDDISK (2 MiB, LBA28)");
    assert!(ata::describe(&list, 1).is_none());
}

fn sata(sectors: usize) -> Ahci {
    Ahci {
        port: AhciPort { present: true, clb: 1, ct: 0x2000, fb: 3, buf: 4 },
        sectors: sectors as u64,
        model: [b' '; 40],
        media: vec![0; sectors * 512],
    }
}

#[test]
fn a_transfer_goes_on_command_by_command() {
    let a = sata(300);
    let mut t = Transfer::new(false, 50, 200, 0x10_0000);
    let first = match a.transfer_step(&mut t, Ok(())) {
        TransferStep::Issue(i) => i,
        _ => panic!(),
    };
    assert_eq!((t.done, t.pending), (0, 128));
    assert_eq!((first.table[2], first.table[4], first.table[12]), (0x25, 50, 128));
    assert_eq!(&first.table[128..136], &0x10_0000u64.to_le_bytes());
    assert_eq!(ahci::command_ended(1, 0, 0, 0), None);
    let last = ahci::command_ended(0, 0, 0, 0).unwrap();
    let second = match a.transfer_step(&mut t, last) {
        TransferStep::Issue(i) => i,
        _ => panic!(),
    };
    assert_eq!((second.table[4], second.table[12]), (178, 72));
    assert_eq!(&second.table[128..136], &(0x10_0000u64 + 128 * 512).to_le_bytes());
    let failed = ahci::command_ended(0, 0, 1, 0).unwrap();
    assert!(matches!(a.transfer_step(&mut t, failed), TransferStep::Failed("AHCI task file error")));
    assert_eq!(t.done, 128);
    assert!(matches!(a.transfer_step(&mut t, Ok(())), TransferStep::Done));
    let timeout = ahci::command_ended(1, ahci::SPIN_LIMIT, 0, 0);
    assert_eq!(timeout, Some(Err("AHCI command timeout")));
}

#[test]
fn sectors_go_over_the_data_port_in_turn() {
    let mut r = SectorRun::new(2, false);
    assert!(matches!(r.step(0x80), SectorStep::Look));
    assert!(matches!(r.step(0x08), SectorStep::Move(0)));
    assert!(matches!(r.step(0), SectorStep::Look));
    assert!(matches!(r.step(0x08), SectorStep::Move(1)));
    assert!(matches!(r.step(0), SectorStep::Done));
    let mut w = SectorRun::new(2, true);
    assert!(matches!(w.step(0x08), SectorStep::Move(0)));
    assert!(matches!(w.step(0), SectorStep::Look));
    assert!(matches!(w.step(0x80), SectorStep::Look));
    assert!(matches!(w.step(0x00), SectorStep::Look));
    assert!(matches!(w.step(0x09), SectorStep::Failed("ATA: drive error")));
    assert_eq!(w.done, 1);
    let mut stuck = SectorRun { spins: ata::BUSY_WAIT_ITERATIONS - 1, ..SectorRun::new(1, false) };
    assert!(matches!(stuck.step(0x80), SectorStep::Failed("ATA: DRQ never set")));
}

#[test]
fn a_drive_keeps_its_description() {
    let mut d = Disk::Ahci(sata(300));
    assert!(d.write_sectors(5, 2, &[7; 1024]).is_ok());
    assert_eq!(d.sectors(), 300);
    let mut back = vec![0u8; 512];
    assert!(d.read_sectors(6, 1, &mut back).is_ok());
    assert_eq!(back, vec![7; 512]);
}

#[test]
fn writing_and_moving_leave_other_files() {
    let mut disk = mounted();
    assert!(fat::make_dir(&mut disk, "/deep", NOW).is_ok());
    assert!(fat::make_dir(&mut disk, "/deep/down", NOW).is_ok());
    assert!(fat::write_file(&mut disk, "/top", &[1; 700], NOW).is_ok());
    assert!(fat::write_file(&mut disk, "/deep/mid", &[2; 900], NOW).is_ok());
    assert!(fat::write_file(&mut disk, "/deep/down/low", &[3; 1100], NOW).is_ok());
    assert!(fat::write_file(&mut disk, "/top", &[4; 100], NOW).is_ok());
    assert_eq!(fat::read_file(&disk, "/deep/mid").ok(), Some(vec![2; 900]));
    assert!(fat::move_file(&mut disk, "/deep/down/low", "/up", NOW).is_ok());
    assert!(fat::move_file(&mut disk, "/top", "/deep/down/top", NOW).is_ok());
    assert!(fat::move_file(&mut disk, "/deep/mid", "/deep/down/top", NOW).is_ok());
    assert_eq!(fat::read_file(&disk, "/up").ok(), Some(vec![3; 1100]));
    assert_eq!(fat::read_file(&disk, "/deep/down/top").ok(), Some(vec![2; 900]));
    assert_eq!(message(fat::read_file(&disk, "/top")), "not found");
    assert_eq!(message(fat::read_file(&disk, "/deep/mid")), "not found");
    assert_eq!(names(&disk, "/deep"), vec!["down".to_string()]);
}

#[test]
fn sata_transfers_are_cut_into_commands() {
    let mut a = sata(300);
    let data: Vec<u8> = (0..200 * 512).map(|i| (i / 512) as u8).collect();
    assert!(a.write_sectors(50, 200, &data).is_ok());
    let mut back = vec![0u8; 200 * 512];
    assert!(a.read_sectors(50, 200, &mut back).is_ok());
    assert_eq!(back, data);
    let mut part = vec![9u8; 200 * 512];
    assert_eq!(a.read_sectors(150, 200, &mut part), Err("AHCI task file error"));
    assert_eq!(part[0], 100);
    assert_eq!(part[128 * 512], 9);
    a.port.present = false;
    assert_eq!(a.read_sectors(0, 1, &mut part), Err("AHCI port 0 has no device"));
    assert_eq!(ahci::read_sectors(&None, 0, 1, &mut part), Err("AHCI not initialized"));
}

#[test]
fn sata_command_layout() {
    let a = sata(1);
    let c = a.command(ahci::CMD_WRITE_DMA_EXT, 0x0605_0403_0201, 2, 0x1122_3344, true).unwrap();
    assert_eq!(c.header, [0x1_0045, 0, 0x2000, 0]);
    assert_eq!(c.table.len(), 512);
    assert_eq!(&c.table[..14], &[0x27, 0x80, 0x35, 0, 1, 2, 3, 0x40, 4, 5, 6, 0, 2, 0]);
    assert_eq!(&c.table[0x80..0x88], &0x1122_3344u64.to_le_bytes());
    assert_eq!(&c.table[0x8C..0x90], &1023u32.to_le_bytes());
    assert!(matches!(ahci::poll_command(0, 5), Poll::Completed));
    assert!(matches!(ahci::poll_command(1, 5), Poll::Again));
    assert!(matches!(ahci::poll_command(1, 20_000_000), Poll::Failed("AHCI command timeout")));
    assert_eq!(ahci::command_outcome(0x50, 0), Ok(()));
    assert_eq!(ahci::command_outcome(0x51, 0), Err("AHCI task file error"));
    assert_eq!(ahci::command_outcome(0x50, 0x4000_0000), Err("AHCI task file error status"));
}

#[test]
fn sata_bring_up_reaches_identify() {
    let mut b = Bringup::new();
    assert!(matches!(b.init(0), Step::Write(0x04, 1)));
    assert!(matches!(b.init(0), Step::Read(0x04)));
    assert!(matches!(b.init(1), Step::Read(0x04)));
    assert!(matches!(b.init(0), Step::Write(0x04, 0x8000_0000)));
    assert!(matches!(b.init(0), Step::Read(0x0C)));
    assert!(matches!(b.init(1), Step::Read(0x118)));
    assert!(matches!(b.init(0x11), Step::Write(0x118, 0)));
    assert!(matches!(b.init(0), Step::Read(0x118)));
    assert!(matches!(b.init(0), Step::Frames));
    assert!(matches!(
        b.take_frames(Some(0x1000), Some(0x2000), Some(0x3000), Some(0x4000)),
        Step::Write(0x100, 0x1000)
    ));
    assert!(matches!(b.init(0), Step::Write(0x108, 0x3000)));
    assert!(matches!(b.init(0), Step::Write(0x114, 0)));
    assert!(matches!(b.init(0), Step::Write(0x118, 0x16)));
    assert!(matches!(b.init(0), Step::Read(0x118)));
    assert!(matches!(b.init(0x4000), Step::Read(0x128)));
    assert!(matches!(b.init(0x113), Step::Read(0x118)));
    assert!(matches!(b.init(0x16), Step::Write(0x118, 0x17)));
    assert!(matches!(b.init(0), Step::Identify));
    let mut a = b.started().unwrap();
    let mut words = vec![0u16; 256];
    words[100] = 8;
    words[101] = 1;
    a.identify(&words);
    assert_eq!(a.sectors, 0x1_0008);
    assert_eq!(ahci::describe(&Some(a)), "[0] SATA (unnamed) (32 MiB, LBA48)");
    assert_eq!(ahci::describe(&None), "AHCI not initialized");
}

#[test]
fn sata_bring_up_failures() {
    let mut b = Bringup::new();
    b.init(0);
    b.init(0);
    b.init(0);
    b.init(0);
    assert!(matches!(b.init(0), Step::Fail("AHCI port 0 not implemented")));
    let mut b = Bringup::new();
    b.init(0);
    b.init(0);
    b.spins = 20_000_000;
    assert!(matches!(b.init(1), Step::Fail("AHCI reset timeout")));
    let mut b = Bringup::new();
    assert!(matches!(b.take_frames(Some(1), None, None, None), Step::Fail("no memory for AHCI command table")));
    assert_eq!(ahci::register_base(0xFEBF_1008), Ok(0xFEBF_1000));
    assert_eq!(ahci::register_base(0x8), Err("AHCI ABAR not assigned"));
    assert!(ahci::accept(sata(0)).is_err());
}

#[test]
fn short_names_and_timestamps() {
    let name: Vec<char> = "Readme.txt".chars().collect();
    assert!(fatname::validate_name(&name));
    assert_eq!(fatname::make_sfn(&name).len(), 11);
    let (date, time) = fatname::fat_datetime(NOW);
    assert_eq!(date, (2025 - 1980) << 9 | 1 << 5 | 2);
    assert_eq!(time, 3 << 11 | 4 << 5 | 3);
    assert!(fatname::name_matches(&name, &"README.TXT".chars().collect()));
}

#[test]
fn crash_log_keeps_the_newest_bytes() {
    let mut disk = mounted();
    fat::make_dir(&mut disk, "/system", NOW).ok();
    let mut writing = false;
    crashlog::append(&mut disk, &mut writing, "first\n", NOW);
    assert!(writing);
    assert_eq!(fat::read_file(&disk, "/system/panic.log").ok(), Some(b"first\n".to_vec()));
    crashlog::append(&mut disk, &mut writing, "dropped\n", NOW);
    assert_eq!(fat::read_file(&disk, "/system/panic.log").ok(), Some(b"first\n".to_vec()));
    writing = false;
    crashlog::append(&mut disk, &mut writing, "second\n", NOW);
    assert_eq!(fat::read_file(&disk, "/system/panic.log").ok(), Some(b"first\nsecond\n".to_vec()));
}

fn window(app: &str, x: i32) -> SessionWindow {
    SessionWindow {
        app: app.to_string(),
        x,
        y: -7,
        cols: 80,
        rows: 24,
        minimized: false,
        maximized: true,
    }
}

#[test]
fn sessions_survive_a_round_trip() {
    let data = SessionData {
        windows: vec![window("terminal", 100), window("notepad", -3)],
        remembered: vec![window("calculator", 0)],
    };
    let text = session::serialize(&data);
    assert_eq!(
        text,
        "# MachaOS desktop session\nwindow terminal 100 -7 80 24 0 1\nwindow notepad -3 -7 80 24 0 1\nremembered calculator 0 -7 80 24 1\n"
    );
    assert!(session::parse(&text) == data);
    let mut disk = mounted();
    assert!(!session::save_to_disk(&mut disk, &data, NOW));
    fat::make_dir(&mut disk, "/system", NOW).ok();
    assert!(session::save_to_disk(&mut disk, &data, NOW));
    assert!(session::load_from_disk(&disk) == data);
}

#[test]
fn malformed_session_lines_are_skipped() {
    let d = session::parse("# c\n\nwindow a 1 2 3\nfoo bar\nwindow b x 2 3 4 0 0\r\n  window c 1 2 3 4 true 0 extra\r\n");
    assert_eq!(d.windows.len(), 1);
    assert_eq!(d.windows[0].app, "c");
    assert!(d.windows[0].minimized);
    assert!(d.remembered.is_empty());
    assert!(session::load_from_disk(&Mount::new()) == SessionData::default());
}

#[test]
fn settings_survive_a_round_trip() {
    let mut disk = mounted();
    fat::make_dir(&mut disk, "/system", NOW).ok();
    let mut s = Settings::defaults();
    assert_eq!(s.accent_color_rgb(), 0x4CC2FF);
    s.accent_color = "red".to_string();
    s.wallpaper = false;
    s.resolution = Some((800, 600));
    s.font_scale_percent = 200;
    assert_eq!(
        s.to_text(),
        "# MachaOS settings\naccent_color=red\nwallpaper=false\nshow_bg_tasks=true\nresolution=800x600\nfont_scale=200\n"
    );
    assert!(s.save(&mut disk, NOW));
    let t = Settings::load(&disk, (1024, 768));
    assert_eq!((t.accent_color.as_str(), t.wallpaper, t.show_bg_tasks), ("red", false, true));
    assert_eq!((t.resolution, t.font_scale_percent), (Some((800, 600)), 200));
    assert_eq!(t.accent_color_rgb(), 0xE87B7B);
    let small = Settings::load(&disk, (640, 480));
    assert_eq!(small.resolution, None);
}

#[test]
fn settings_ignore_what_they_do_not_know() {
    let s = Settings::from_text(" wallpaper = false \n#show_bg_tasks=false\nfont_scale=abc\nresolution=0x5\nx\n", (9, 9));
    assert!(!s.wallpaper);
    assert!(s.show_bg_tasks);
    assert_eq!(s.font_scale_percent, 100);
    assert_eq!(s.resolution, None);
    assert_eq!(Settings::load(&Mount::new(), (1, 1)).accent_color, "blue");
}

#[test]
fn shutdown_saves_and_clears_the_marker() {
    let mut disk = mounted();
    fat::make_dir(&mut disk, "/system", NOW).ok();
    fat::write_file(&mut disk, "/system/dirty", b"1", NOW).ok();
    let s = Settings::defaults();
    let (plan, exit) = machaos::power::shutdown(&mut disk, &s, NOW, &[]);
    assert!(plan.is_none());
    assert_eq!((exit.port, exit.value), (0xF4, 0));
    assert_eq!(names(&disk, "/system"), vec!["settings.conf".to_string()]);
    let w = machaos::power::reboot(&mut disk, &s, NOW);
    assert_eq!((w.port, w.value), (0x64, 0xFE));
}

#[test]
fn ata_registers_for_a_transfer() {
    let mut d = device(vec![]);
    let w: Vec<(u16, u8)> = d.command(0x0ABC_DEF1, 256, false).iter().map(|w| (w.port, w.value)).collect();
    assert_eq!(
        w,
        vec![(0x1F6, 0xEA), (0x1F2, 0), (0x1F3, 0xF1), (0x1F4, 0xDE), (0x1F5, 0xBC), (0x1F7, 0x20)]
    );
    d.master = false;
    let w = d.command(1, 2, true);
    assert_eq!((w[0].value, w[1].value, w[5].value), (0xF0, 2, 0x30));
    let w = ata::identify_command(0x170, false);
    assert_eq!((w[0].port, w[0].value, w[5].value), (0x176, 0xB0, 0xEC));
}

#[test]
fn ata_status_bytes() {
    assert!(matches!(ata::wait_bsy_clear(0x80), ata::WaitStep::Busy));
    assert!(matches!(ata::wait_bsy_clear(0x40), ata::WaitStep::Ready));
    assert!(matches!(ata::wait_drq(0x08), ata::WaitStep::Ready));
    assert!(matches!(ata::wait_drq(0x40), ata::WaitStep::Busy));
    assert!(matches!(ata::wait_drq(0x09), ata::WaitStep::Failed("ATA: drive error")));
    assert!(matches!(ata::wait_idle(0x01), ata::WaitStep::Failed("ATA: write error")));
    assert!(matches!(ata::wait_idle(0x40), ata::WaitStep::Ready));
}
