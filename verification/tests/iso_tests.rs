use dmw3_randomizer::lba::{is_whitespace, parse_lba_log, Entry};
use dmw3_randomizer::mkpsxiso::{
    Dir, DirEntry, DirectoryTree, File, IsoError, IsoProject, Track,
};

fn file(name: &str, offs: Option<u32>) -> File {
    File { name: name.to_string(), source: format!("src/{}", name), offs, file_type: "data".to_string() }
}

fn track(kind: &str, field: Vec<DirEntry>) -> Track {
    Track {
        track_type: kind.to_string(),
        directory_tree: DirectoryTree { field },
        identifiers: None,
        license: None,
        default_attributes: None,
    }
}

fn project() -> IsoProject {
    let sub = Dir {
        field: vec![DirEntry::File(file("B.BIN", Some(30))), DirEntry::File(file("C.BIN", None))],
        name: "SUB".to_string(),
        source: "".to_string(),
    };
    IsoProject {
        image_name: "out.bin".to_string(),
        cue_sheet: "out.cue".to_string(),
        track: vec![
            track("audio", vec![DirEntry::File(file("Z.BIN", Some(1)))]),
            track("data", vec![DirEntry::File(file("A.BIN", Some(20))), DirEntry::Dir(sub), DirEntry::File(file("D.BIN", Some(40)))]),
        ],
    }
}

#[test]
fn flatten_lists_files_depth_first() {
    let files = project().flatten().unwrap();
    let names: Vec<&str> = files.iter().map(|f| f.name.as_str()).collect();
    assert_eq!(names, vec!["A.BIN", "B.BIN", "C.BIN", "D.BIN"]);
    assert_eq!(files[1].offs, Some(30));
}

#[test]
fn flatten_without_data_track_fails() {
    let p = IsoProject {
        image_name: "x".to_string(),
        cue_sheet: "y".to_string(),
        track: vec![track("audio", vec![])],
    };
    assert_eq!(p.flatten().err(), Some(IsoError::MissingDataTrack));
}

#[test]
fn remove_offsets_clears_data_track_only() {
    let mut p = project();
    assert_eq!(p.remove_offsets(), Ok(()));
    for f in p.flatten().unwrap() {
        assert_eq!(f.offs, None);
    }
    match &p.track[0].directory_tree.field[0] {
        DirEntry::File(f) => assert_eq!(f.offs, Some(1)),
        DirEntry::Dir(_) => panic!("the audio track changed"),
    }
    assert_eq!(p.image_name, "out.bin");
}

#[test]
fn remove_offsets_without_data_track_fails() {
    let mut p = IsoProject { image_name: "x".to_string(), cue_sheet: "y".to_string(), track: vec![] };
    assert_eq!(p.remove_offsets(), Err(IsoError::MissingDataTrack));
}

#[test]
fn file_copy_is_equal() {
    let f = file("Q.BIN", Some(9));
    let g = f.copy();
    assert_eq!(g.name, f.name);
    assert_eq!(g.source, f.source);
    assert_eq!(g.offs, f.offs);
    assert_eq!(g.file_type, f.file_type);
}

fn chars(s: &str) -> Vec<char> {
    s.chars().collect()
}

#[test]
fn lba_log_header_and_entries() {
    let text = "Image bin file:  game.bin \n\
                Image cue file: game.cue\n\
                \n\
                   Dir    AAA   22   00:02:22\n\
                   File   SLUS.EXE  12  24  00:02:24  24576  ./SLUS.EXE\n\
                   XA     MOV.STR   7   36  00:02:36  16464  \n\
                   End    AAA\n\
                   Something else\n";
    let log = parse_lba_log(&chars(text));
    assert_eq!(log.bin_file, "game.bin");
    assert_eq!(log.cue_file, "game.cue");
    assert_eq!(log.entries.len(), 4);
    match &log.entries[0] {
        Entry::Dir { _name, _lba, _timecode } => {
            assert_eq!(_name, "AAA");
            assert_eq!(*_lba, 22);
            assert_eq!(_timecode, "00:02:22");
        }
        _ => panic!("expected a directory"),
    }
    match &log.entries[1] {
        Entry::File { name, length, lba, _timecode, _bytes, _source } => {
            assert_eq!(name, "SLUS.EXE");
            assert_eq!(*length, 12);
            assert_eq!(*lba, 24);
            assert_eq!(_timecode, "00:02:24");
            assert_eq!(*_bytes, 24576);
            assert_eq!(_source, "./SLUS.EXE");
        }
        _ => panic!("expected a file"),
    }
    match &log.entries[2] {
        Entry::Xa { name, length, lba, _source, .. } => {
            assert_eq!(name, "MOV.STR");
            assert_eq!(*length, 7);
            assert_eq!(*lba, 36);
            assert_eq!(_source, "");
        }
        _ => panic!("expected an XA file"),
    }
    match &log.entries[3] {
        Entry::DirEnd(name) => assert_eq!(name, "AAA"),
        _ => panic!("expected a directory end"),
    }
}

#[test]
fn lba_log_skips_malformed_file_lines() {
    let log = parse_lba_log(&chars("File A.BIN notanumber 3 00:00:00 5 x\nFile B.BIN 1 2\nDir\n"));
    assert!(log.entries.is_empty());
    assert_eq!(log.bin_file, "");
}

#[test]
fn lba_log_dir_defaults() {
    let log = parse_lba_log(&chars("Dir X\r\nEnd\n"));
    assert_eq!(log.entries.len(), 2);
    match &log.entries[0] {
        Entry::Dir { _name, _lba, _timecode } => {
            assert_eq!(_name, "X");
            assert_eq!(*_lba, 0);
            assert_eq!(_timecode, "");
        }
        _ => panic!("expected a directory"),
    }
    match &log.entries[1] {
        Entry::DirEnd(name) => assert_eq!(name, ""),
        _ => panic!("expected a directory end"),
    }
}

#[test]
fn lba_log_number_too_large_skips_line() {
    let log = parse_lba_log(&chars("File A 4294967296 1 t 1 s\nFile B 4294967295 1 t 1 s\n"));
    assert_eq!(log.entries.len(), 1);
}

#[test]
fn whitespace_classification() {
    assert!(is_whitespace(' '));
    assert!(is_whitespace('\t'));
    assert!(is_whitespace('\u{3000}'));
    assert!(!is_whitespace('a'));
    assert!(!is_whitespace('0'));
}
