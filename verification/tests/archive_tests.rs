use formualizer_engine_v2_poc::archive::{runtime_dump_archive_stats, static_dump_archive_stats};
use formualizer_engine_v2_poc::dump::{parse_runtime_dump, parse_static_dump};
use std::io::{Cursor, Write};
use zip::write::SimpleFileOptions;
use zip::{CompressionMethod, ZipWriter};

fn archive_of(entries: &[(&str, &str)], method: CompressionMethod) -> Vec<u8> {
    let mut writer = ZipWriter::new(Cursor::new(Vec::new()));
    let options = SimpleFileOptions::default().compression_method(method);
    for (name, text) in entries {
        writer.start_file(*name, options).unwrap();
        writer.write_all(text.as_bytes()).unwrap();
    }
    writer.finish().unwrap().into_inner()
}

const STATIC_DUMP: &str = "kind\tindex\n\
                           M\t0\t-\tSheet1!A1\n\
                           M\t1\t-\tSheet1!B1\n\
                           S\t0\t1\t1\n\
                           S\t1\t0\t4\n";

#[test]
fn static_archive_counts_its_first_entry() {
    let bytes = archive_of(&[("static.tsv", STATIC_DUMP), ("other.tsv", "")], CompressionMethod::Deflated);
    assert_eq!(static_dump_archive_stats(&bytes), Some(parse_static_dump(STATIC_DUMP)));
}

#[test]
fn runtime_archive_counts_its_first_entry() {
    let bytes = archive_of(&[("runtime.tsv", STATIC_DUMP)], CompressionMethod::Stored);
    let stats = runtime_dump_archive_stats(&bytes).unwrap();
    assert_eq!(stats, parse_runtime_dump(STATIC_DUMP));
    assert_ne!(stats, parse_static_dump(STATIC_DUMP));
}

#[test]
fn unreadable_archives_give_nothing() {
    assert_eq!(static_dump_archive_stats(&b"not a zip".to_vec()), None);
    assert_eq!(runtime_dump_archive_stats(&Vec::new()), None);
    let empty = archive_of(&[], CompressionMethod::Stored);
    assert_eq!(static_dump_archive_stats(&empty), None);
}
