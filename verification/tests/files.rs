use m4againpy::analysis::{analyze_locations, Survey};
use m4againpy::audio_config::{
    parse_audio_config, parse_config_rate, parse_esds_sample_rate, read_desc_length,
};
use m4againpy::error::{Error, Fault};
use m4againpy::file_analysis::{
    normalize_box_size, scan_top_level, FileAnalysis, FileFault, ReadRequest, ScanStep,
};
use m4againpy::file_patch::{is_in_order, next_chunk, patch_chunk, will_modify, PatchChunk};
use m4againpy::gain::{
    aac_apply_gain, apply_gain_to_bytes, apply_gain_to_data, read_aac_gain_at, try_aac_apply_gain,
    write_aac_gain_at,
};
use m4againpy::location::AacGainLocation;
use m4againpy::metadata::gain_metadata_box;
use m4againpy::mp4::{
    effective_box_size, find_box, find_box_in_container, is_accepted_brand, is_mp4, read_u32_be,
    read_u64_be, BoxHeader, TruncatedHeader, MDIA, MOOV,
};
use m4againpy::sample_table::{
    build_sample_table, lay_out_samples, parse_chunk_offsets, parse_sample_sizes,
    parse_stsc_entries, samples_in_chunk, SampleEntry, StscEntry,
};

fn be(n: u32) -> Vec<u8> {
    n.to_be_bytes().to_vec()
}

fn boxed(name: &[u8; 4], content: &[u8]) -> Vec<u8> {
    let mut out = be(8 + content.len() as u32);
    out.extend_from_slice(name);
    out.extend_from_slice(content);
    out
}

fn join(parts: &[Vec<u8>]) -> Vec<u8> {
    parts.concat()
}

fn ftyp() -> Vec<u8> {
    boxed(b"ftyp", b"M4A \x00\x00\x02\x00isomiso2")
}

fn full(name: &[u8; 4], fields: &[u32]) -> Vec<u8> {
    let mut content = be(0);
    for f in fields {
        content.extend_from_slice(&f.to_be_bytes());
    }
    boxed(name, &content)
}

fn esds(config: &[u8]) -> Vec<u8> {
    let specific = join(&[vec![5, config.len() as u8], config.to_vec()]);
    let decoder = join(&[vec![4, (13 + specific.len()) as u8], vec![0; 13], specific]);
    let stream = join(&[vec![3, (3 + decoder.len()) as u8], vec![0; 3], decoder]);
    boxed(b"esds", &join(&[be(0), stream]))
}

fn mp4a(rate: u32, children: &[u8]) -> Vec<u8> {
    boxed(b"mp4a", &join(&[vec![0; 24], be(rate << 16), children.to_vec()]))
}

fn stsd(entry: &[u8]) -> Vec<u8> {
    boxed(b"stsd", &join(&[be(0), be(1), entry.to_vec()]))
}

fn track(stbl: &[Vec<u8>]) -> Vec<u8> {
    boxed(b"trak", &boxed(b"mdia", &boxed(b"minf", &boxed(b"stbl", &join(stbl)))))
}

/// A frame with one channel of the given gain; the gain starts at its bit 7.
fn frame(gain: u8) -> Vec<u8> {
    let mut bits: Vec<bool> = vec![false; 7];
    for i in (0..8).rev() {
        bits.push((gain >> i) & 1 == 1);
    }
    bits.extend(vec![false; 14]);
    bits.extend([true, true, true]);
    let mut out = vec![0u8; 4];
    for (i, b) in bits.iter().enumerate() {
        if *b {
            out[i / 8] |= 0x80 >> (i % 8);
        }
    }
    out
}

const CONFIG_44100: [u8; 2] = [0x12, 0x10];

/// The sample table of samples of the given sizes, all in one chunk.
fn stbl_for(sizes: &[u32], chunk: u32) -> Vec<Vec<u8>> {
    let mut stsz = vec![0, sizes.len() as u32];
    stsz.extend_from_slice(sizes);
    vec![
        stsd(&mp4a(44100, &esds(&CONFIG_44100))),
        full(b"stsz", &stsz),
        full(b"stsc", &[1, 1, sizes.len() as u32, 1]),
        full(b"stco", &[1, chunk]),
    ]
}

/// A file with the samples in front of the movie box.
fn file_of(samples: &[Vec<u8>]) -> Vec<u8> {
    let sizes: Vec<u32> = samples.iter().map(|s| s.len() as u32).collect();
    let chunk = ftyp().len() as u32 + 8;
    let moov = boxed(b"moov", &track(&stbl_for(&sizes, chunk)));
    join(&[ftyp(), boxed(b"mdat", &join(samples)), moov])
}

/// The same file with the samples behind the movie box.
fn fast_start_file_of(samples: &[Vec<u8>]) -> Vec<u8> {
    let sizes: Vec<u32> = samples.iter().map(|s| s.len() as u32).collect();
    let moov_len = boxed(b"moov", &track(&stbl_for(&sizes, 0))).len() as u32;
    let chunk = ftyp().len() as u32 + moov_len + 8;
    let moov = boxed(b"moov", &track(&stbl_for(&sizes, chunk)));
    join(&[ftyp(), moov, boxed(b"mdat", &join(samples))])
}

fn gains(data: &[u8]) -> Vec<u8> {
    analyze_locations(data).unwrap().iter().map(|l| l.original_gain).collect()
}

fn analyze_in_parts(file: &[u8]) -> Result<Vec<AacGainLocation>, FileFault> {
    let mut search = FileAnalysis::new(file.len() as u64);
    while let Some(request) = search.request() {
        let start = request.offset as usize;
        search = search.supply(file[start..start + request.len].to_vec());
    }
    search.into_outcome().unwrap()
}

fn patch_in_parts(file: &mut [u8], locations: &[AacGainLocation], steps: i32) -> usize {
    let mut modified = 0;
    let mut idx = 0;
    while let Some(chunk) = next_chunk(locations, idx, steps) {
        let start = chunk.start as usize;
        let mut buf = file[start..start + chunk.len].to_vec();
        modified += patch_chunk(&mut buf, locations, &chunk, steps);
        file[start..start + chunk.len].copy_from_slice(&buf);
        idx = chunk.end;
    }
    modified
}

fn reject(e: Error) -> Fault {
    Fault::Reject(e)
}

fn parse_failure(message: &str) -> Error {
    Error::AacParse { message: message.to_string() }
}

#[test]
fn numbers_are_big_endian() {
    let data = [0, 1, 2, 3, 4, 5, 6, 7, 8];
    assert_eq!(read_u32_be(&data, 1), 0x01020304);
    assert_eq!(read_u64_be(&data, 1), 0x0102030405060708);
}

#[test]
fn heads_of_boxes() {
    let plain = boxed(b"free", &[1, 2, 3]);
    let header = BoxHeader::read(&plain, 0).unwrap().unwrap();
    assert_eq!(header, BoxHeader { size: 11, box_type: 0x66726565, header_size: 8 });
    assert_eq!(header.content_size(), 3);
    assert_eq!(BoxHeader::read(&plain, 4), Ok(None));
    let long = join(&[be(1), b"free".to_vec(), be(1), be(2)]);
    let header = BoxHeader::read(&long, 0).unwrap().unwrap();
    assert_eq!((header.size, header.header_size), (0x1_0000_0002, 16));
    assert_eq!(BoxHeader::read(&long[..12], 0), Err(TruncatedHeader));
    let open = BoxHeader::read(&join(&[be(0), b"free".to_vec()]), 0).unwrap().unwrap();
    assert_eq!((open.size, open.content_size()), (0, 0));
}

#[test]
fn top_level_boxes_are_found() {
    let data = join(&[boxed(b"free", &[0; 5]), boxed(b"moov", &[]), boxed(b"moov", &[1])]);
    let (pos, header) = find_box(&data, MOOV).unwrap().unwrap();
    assert_eq!((pos, header.size), (13, 8));
    assert_eq!(find_box(&data[..13], MOOV), Ok(None));
    let open = join(&[be(0), b"free".to_vec(), boxed(b"moov", &[])]);
    assert_eq!(find_box(&open, MOOV), Ok(None));
    let huge = join(&[vec![0; 0], boxed(b"free", &[]), be(1), b"free".to_vec(), vec![0xff; 8]]);
    assert_eq!(find_box(&huge, MOOV), Err(Fault::OutOfRange));
}

#[test]
fn boxes_in_containers_are_found() {
    let data = join(&[boxed(b"free", &[0; 2]), boxed(b"mdia", &[7]), vec![0; 4]]);
    let (pos, header) = find_box_in_container(&data, 0, 19, MDIA).unwrap().unwrap();
    assert_eq!((pos, header.size), (10, 9));
    assert_eq!(find_box_in_container(&data, 0, 17, MDIA), Ok(None));
    assert_eq!(find_box_in_container(&data, 0, 10, MDIA), Ok(None));
    assert_eq!(find_box_in_container(&data, 1, usize::MAX, MDIA), Err(Fault::OutOfRange));
    assert_eq!(find_box_in_container(&data, 100, 50, MDIA), Err(Fault::OutOfRange));
    let open = join(&[be(0), b"free".to_vec(), boxed(b"mdia", &[7])]);
    assert_eq!(find_box_in_container(&open, 0, open.len(), MDIA), Ok(None));
}

#[test]
fn file_types() {
    assert!(is_accepted_brand(b"M4A "));
    assert!(is_accepted_brand(b"iso2"));
    assert!(!is_accepted_brand(b"qt  "));
    assert!(!is_accepted_brand(b"M4A"));
    assert!(is_mp4(&ftyp()));
    assert!(is_mp4(&boxed(b"ftyp", b"qt  \x00\x00\x00\x00qt  mp42")));
    assert!(!is_mp4(&boxed(b"ftyp", b"qt  M4A qt  ")));
    assert!(!is_mp4(&boxed(b"ftyp", b"qt  \x00\x00\x00\x00qt  ")));
    assert!(!is_mp4(&boxed(b"free", b"M4A \x00\x00\x00\x00")));
    assert!(!is_mp4(b"\x00\x00\x00\x0bftypM4A "));
    assert!(!is_mp4(&ftyp()[..11]));
    // A brand behind the end of the box, or behind the first 128 bytes.
    assert!(!is_mp4(&join(&[boxed(b"ftyp", b"qt  \x00\x00\x00\x00"), b"mp42".to_vec()])));
    let mut late = b"qt  \x00\x00\x00\x00".to_vec();
    late.extend(vec![b'x'; 112]);
    assert!(!is_mp4(&boxed(b"ftyp", &join(&[late.clone(), b"mp42".to_vec()]))));
    late.truncate(116);
    assert!(is_mp4(&boxed(b"ftyp", &join(&[late, b"mp42".to_vec()]))));
}

#[test]
fn sizes_of_boxes_in_a_file() {
    let header = |size| BoxHeader { size, box_type: MOOV, header_size: 8 };
    assert_eq!(effective_box_size(&header(20), 4, 24), Ok(20));
    assert_eq!(effective_box_size(&header(0), 4, 24), Ok(20));
    let r = effective_box_size(&header(7), 4, 24);
    assert_eq!(r, Err(parse_failure("invalid MP4 box size")));
    let r = effective_box_size(&header(u64::MAX), 4, 24);
    assert_eq!(r, Err(parse_failure("MP4 box size overflow")));
    let r = effective_box_size(&header(21), 4, 24);
    assert_eq!(r, Err(parse_failure("MP4 box extends past end of file")));
    assert_eq!(effective_box_size(&header(0), 30, 24), Err(parse_failure("invalid MP4 box size")));
}

#[test]
fn tables_of_samples() {
    let own = join(&[be(0), be(0), be(3), be(10), be(20), be(30)]);
    assert_eq!(parse_sample_sizes(&own, 0), Ok(vec![10, 20, 30]));
    let common = join(&[be(0), be(7), be(3)]);
    assert_eq!(parse_sample_sizes(&common, 0), Ok(vec![7, 7, 7]));
    assert_eq!(parse_sample_sizes(&own[..23], 0), Err(Fault::OutOfRange));
    assert_eq!(parse_sample_sizes(&own[..11], 0), Err(Fault::OutOfRange));
    let runs = join(&[be(0), be(2), be(1), be(5), be(1), be(3), be(2)]);
    let entry = |first_chunk, samples_per_chunk| StscEntry { first_chunk, samples_per_chunk };
    assert_eq!(parse_stsc_entries(&runs, 0), Ok(vec![entry(1, 5), entry(3, 2)]));
    assert_eq!(parse_stsc_entries(&runs[..27], 0), Err(Fault::OutOfRange));
    let runs = [entry(1, 5), entry(3, 2), entry(4, 9)];
    let counts: Vec<usize> = (1..6).map(|c| samples_in_chunk(&runs, c)).collect();
    assert_eq!(counts, vec![5, 5, 2, 9, 9]);
    assert_eq!(samples_in_chunk(&[entry(4, 3)], 1), 3);
}

#[test]
fn chunk_offsets_of_either_width() {
    let stco = full(b"stco", &[2, 5, 6]);
    assert_eq!(parse_chunk_offsets(&stco, 0, stco.len()), Ok(vec![5, 6]));
    let co64 = full(b"co64", &[1, 1, 2]);
    assert_eq!(parse_chunk_offsets(&co64, 0, co64.len()), Ok(vec![0x1_0000_0002]));
    let both = join(&[co64, stco]);
    assert_eq!(parse_chunk_offsets(&both, 0, both.len()), Ok(vec![5, 6]));
    let none = boxed(b"free", &[]);
    let r = parse_chunk_offsets(&none, 0, none.len());
    assert_eq!(r, Err(reject(parse_failure("no stco or co64 box found"))));
    let short = full(b"stco", &[2, 5]);
    assert_eq!(parse_chunk_offsets(&short, 0, short.len()), Err(Fault::OutOfRange));
}

#[test]
fn samples_follow_each_other_in_chunks() {
    let runs = [
        StscEntry { first_chunk: 1, samples_per_chunk: 2 },
        StscEntry { first_chunk: 2, samples_per_chunk: 3 },
    ];
    let entry = |file_offset, size| SampleEntry { file_offset, size };
    let entries = lay_out_samples(&[1, 2, 3, 4], &runs, &[100, 200, 300]).unwrap();
    assert_eq!(entries, vec![entry(100, 1), entry(101, 2), entry(200, 3), entry(203, 4)]);
    assert_eq!(lay_out_samples(&[1, 2, 3], &runs, &[100]).unwrap().len(), 2);
    assert_eq!(lay_out_samples(&[1], &[], &[100]), Err(Fault::OutOfRange));
    assert_eq!(lay_out_samples(&[1], &[], &[]), Ok(vec![]));
    let late = lay_out_samples(&[1, 1], &runs, &[u64::MAX]);
    assert_eq!(late, Err(Fault::OutOfRange));
}

#[test]
fn the_sample_table_of_a_file() {
    let file = file_of(&[frame(1), frame(2)]);
    let (entries, stsd_pos) = build_sample_table(&file).unwrap();
    let start = ftyp().len() as u64 + 8;
    let entry = |file_offset| SampleEntry { file_offset, size: 4 };
    assert_eq!(entries, vec![entry(start), entry(start + 4)]);
    assert_eq!(&file[stsd_pos + 4..stsd_pos + 8], b"stsd");
    assert_eq!(parse_audio_config(&file, stsd_pos), Ok(44100));
}

#[test]
fn the_aac_track_need_not_be_the_first() {
    let video = boxed(b"trak", &boxed(b"mdia", &boxed(b"minf", &boxed(b"stbl", &stsd(&boxed(b"avc1", &[0; 40]))))));
    let other = boxed(b"trak", &boxed(b"tkhd", &[0; 4]));
    let chunk = ftyp().len() as u32 + 8;
    let moov = boxed(b"moov", &join(&[video, other, track(&stbl_for(&[4], chunk))]));
    let file = join(&[ftyp(), boxed(b"mdat", &frame(33)), moov]);
    assert_eq!(gains(&file), vec![33]);
}

#[test]
fn lengths_of_descriptors() {
    assert_eq!(read_desc_length(&[0x05], 0, 1), Ok(Some((5, 1))));
    assert_eq!(read_desc_length(&[0x81, 0x05], 0, 2), Ok(Some((133, 2))));
    assert_eq!(read_desc_length(&[0x80, 0x80, 0x80, 0x85, 0x05], 0, 5), Ok(Some((5, 4))));
    assert_eq!(read_desc_length(&[0x81], 0, 1), Ok(None));
    assert_eq!(read_desc_length(&[0x81], 0, 2), Err(Fault::OutOfRange));
}

#[test]
fn sample_rates() {
    assert_eq!(parse_config_rate(&[0x12, 0x10]), Some(44100));
    assert_eq!(parse_config_rate(&[0x10, 0x00]), Some(96000));
    assert_eq!(parse_config_rate(&[0x16, 0x00]), Some(7350));
    assert_eq!(parse_config_rate(&[0x16, 0x80]), None);
    assert_eq!(parse_config_rate(&[0x17, 0x80, 0x5d, 0xc0, 0x00]), Some(48000));
    assert_eq!(parse_config_rate(&[0x17, 0x80, 0x5d, 0xc0]), None);
    assert_eq!(parse_config_rate(&[0x12]), None);
    let config = esds(&[0x11, 0x90]);
    assert_eq!(parse_esds_sample_rate(&config, 0, config.len()), Ok(Some(48000)));
    let bare = boxed(b"free", &[0; 4]);
    assert_eq!(parse_esds_sample_rate(&bare, 0, bare.len()), Ok(None));
}

#[test]
fn the_description_has_a_rate_of_its_own() {
    let with_config = stsd(&mp4a(22050, &esds(&CONFIG_44100)));
    assert_eq!(parse_audio_config(&with_config, 0), Ok(44100));
    let without = stsd(&mp4a(22050, &[]));
    assert_eq!(parse_audio_config(&without, 0), Ok(22050));
    let unknown = stsd(&mp4a(22050, &esds(&[0x17, 0x00])));
    assert_eq!(parse_audio_config(&unknown, 0), Ok(22050));
    let r = parse_audio_config(&without[..19], 0);
    assert_eq!(r, Err(reject(parse_failure("stsd too short"))));
    let r = parse_audio_config(&without[..51], 0);
    assert_eq!(r, Err(reject(parse_failure("mp4a too short for sample rate"))));
}

#[test]
fn gains_are_found_in_every_sample() {
    let file = file_of(&[frame(10), frame(20), frame(30)]);
    let locs = analyze_locations(&file).unwrap();
    let start = ftyp().len() as u64 + 8;
    assert_eq!(
        locs,
        vec![
            AacGainLocation::new(0, start, 0, 7, 0, 10),
            AacGainLocation::new(1, start + 4, 0, 7, 0, 20),
            AacGainLocation::new(2, start + 8, 0, 7, 0, 30),
        ]
    );
}

#[test]
fn a_gain_is_applied() {
    for build in [file_of as fn(&[Vec<u8>]) -> Vec<u8>, fast_start_file_of] {
        let file = build(&[frame(10), frame(254), frame(0), frame(100)]);
        let louder = aac_apply_gain(&file, 2).unwrap();
        assert_eq!(gains(&louder), vec![12, 255, 0, 102]);
        let softer = aac_apply_gain(&file, -20).unwrap();
        assert_eq!(gains(&softer), vec![0, 234, 0, 80]);
        assert_eq!(louder, build(&[frame(12), frame(255), frame(0), frame(102)]));
        let mut bytes = file.clone();
        assert_eq!(apply_gain_to_bytes(&mut bytes, 2), Ok(3));
        assert_eq!(bytes, louder);
        let mut bytes = build(&[frame(255), frame(0)]);
        assert_eq!(apply_gain_to_bytes(&mut bytes, 1), Ok(0));
    }
}

#[test]
fn a_gain_is_undone() {
    let file = file_of(&[frame(10), frame(200), frame(0)]);
    let there = aac_apply_gain(&file, 40).unwrap();
    assert_ne!(there, file);
    assert_eq!(aac_apply_gain(&there, -40).unwrap(), file);
    let file = fast_start_file_of(&[frame(10), frame(200), frame(0)]);
    let there = aac_apply_gain(&file, 40).unwrap();
    assert_eq!(aac_apply_gain(&there, -40).unwrap(), file);
    let file = file_of(&[frame(10), frame(200), frame(0)]);
    // A gain that was held at the limit does not come back.
    let clamped = aac_apply_gain(&file, 100).unwrap();
    assert_eq!(gains(&aac_apply_gain(&clamped, -100).unwrap()), vec![10, 155, 0]);
}

#[test]
fn two_gains_add_up() {
    let file = file_of(&[frame(10), frame(200), frame(0)]);
    let once = aac_apply_gain(&aac_apply_gain(&file, 5).unwrap(), 7).unwrap();
    assert_eq!(once, aac_apply_gain(&file, 12).unwrap());
}

#[test]
fn gains_one_way_add_up_at_the_limits() {
    for build in [file_of as fn(&[Vec<u8>]) -> Vec<u8>, fast_start_file_of] {
        let file = build(&[frame(10), frame(200), frame(0), frame(255)]);
        for (a, b) in [(40, 60), (1, 300), (-6, -5), (-250, -1)] {
            let twice = aac_apply_gain(&aac_apply_gain(&file, a).unwrap(), b).unwrap();
            assert_eq!(twice, aac_apply_gain(&file, a + b).unwrap());
        }
        let there = aac_apply_gain(&file, 100).unwrap();
        assert_eq!(gains(&there), vec![110, 255, 0, 255]);
    }
}

#[test]
fn single_fields_are_shifted() {
    let mut data = vec![0xff, 0x00, 0x64, 0xff];
    let loc = AacGainLocation::new(0, 2, 0, 0, 0, 100);
    assert_eq!(read_aac_gain_at(&data, &loc), 100);
    assert_eq!(apply_gain_to_data(&mut data, &[loc], -1), 1);
    assert_eq!(data, vec![0xff, 0x00, 0x63, 0xff]);
    write_aac_gain_at(&mut data, &loc, 0);
    assert_eq!(apply_gain_to_data(&mut data, &[loc], 5), 0);
    assert_eq!(data, vec![0xff, 0x00, 0x00, 0xff]);
}

#[test]
fn no_steps_are_an_error() {
    let file = file_of(&[frame(10)]);
    assert_eq!(aac_apply_gain(&file, 0), Err(Error::ZeroGainSteps));
    assert_eq!(aac_apply_gain(&[], 0), Err(Error::ZeroGainSteps));
    assert_eq!(try_aac_apply_gain(&[], 0), Some(Err(Error::ZeroGainSteps)));
}

#[test]
fn other_files_are_turned_down() {
    assert_eq!(aac_apply_gain(b"RIFF", 1), Err(Error::NotMp4));
    assert_eq!(aac_apply_gain(&ftyp(), 1), Err(Error::NoMoovBox));
    let empty = join(&[ftyp(), boxed(b"moov", &[])]);
    assert_eq!(aac_apply_gain(&empty, 1), Err(Error::NoAacTrack));
    let movie = |stbl: &[Vec<u8>]| join(&[ftyp(), boxed(b"moov", &track(stbl))]);
    let mut stbl = stbl_for(&[4], 0);
    stbl.remove(1);
    assert_eq!(aac_apply_gain(&movie(&stbl), 1), Err(parse_failure("no stsz box")));
    let mut stbl = stbl_for(&[4], 0);
    stbl.remove(2);
    assert_eq!(aac_apply_gain(&movie(&stbl), 1), Err(parse_failure("no stsc box")));
    let mut stbl = stbl_for(&[4], 0);
    stbl.remove(3);
    assert_eq!(aac_apply_gain(&movie(&stbl), 1), Err(parse_failure("no stco or co64 box found")));
    let mut stbl = stbl_for(&[4], 0);
    stbl[0] = stsd(&boxed(b"mp4a", &[0; 8]));
    stbl.rotate_left(1);
    let cut = movie(&stbl);
    let r = aac_apply_gain(&cut, 1);
    assert_eq!(r, Err(parse_failure("mp4a too short for sample rate")));
}

#[test]
fn samples_that_cannot_be_parsed_are_passed_over() {
    // A coupling channel, and a sample behind the end of the file.
    let coupled = vec![0x40, 0, 0, 0];
    let file = file_of(&[coupled.clone(), frame(8)]);
    assert_eq!(gains(&file), vec![8]);
    let file = file_of(&[coupled.clone(), coupled.clone()]);
    assert_eq!(aac_apply_gain(&file, 1), Err(Error::AacParseFailure { warnings: 2 }));
    let moov = boxed(b"moov", &track(&stbl_for(&[4], 0xffff_0000)));
    let file = join(&[ftyp(), moov]);
    assert_eq!(aac_apply_gain(&file, 1), Err(Error::AacParseFailure { warnings: 1 }));
    let file = file_of(&[]);
    assert_eq!(aac_apply_gain(&file, 1).unwrap(), file);
}

#[test]
fn tables_that_point_outside_of_the_file_have_no_result() {
    let mut stbl = stbl_for(&[4], 0);
    stbl[3] = full(b"stco", &[1000, 1]);
    let file = join(&[ftyp(), boxed(b"moov", &track(&stbl))]);
    assert_eq!(try_aac_apply_gain(&file, 1), None);
    assert_eq!(try_aac_apply_gain(&file, 0), Some(Err(Error::ZeroGainSteps)));
    assert_eq!(analyze_locations(&file), Err(Fault::OutOfRange));
    let good = file_of(&[frame(10)]);
    assert_eq!(try_aac_apply_gain(&good, 1), Some(aac_apply_gain(&good, 1)));
}

#[test]
fn a_search_counts_what_it_cannot_parse() {
    let loc = AacGainLocation::new(0, 0, 0, 0, 0, 5);
    let mut survey = Survey::new();
    survey.record(None);
    survey.record(Some(vec![loc]));
    assert_eq!(survey.finish(), Ok(vec![loc]));
    let mut survey = Survey::new();
    survey.record(None);
    survey.record(Some(vec![]));
    assert_eq!(survey.finish(), Err(Error::AacParseFailure { warnings: 1 }));
    assert_eq!(Survey::new().finish(), Ok(vec![]));
}

#[test]
fn a_scan_looks_at_one_head_at_a_time() {
    let skip = boxed(b"free", &[0; 4]);
    assert_eq!(scan_top_level(&skip, 10, 100, MOOV), Ok(ScanStep::Skip { next: 22 }));
    let read = boxed(b"moov", &[0; 4]);
    let step = ScanStep::Read { size: 12, normalize: false };
    assert_eq!(scan_top_level(&read, 10, 100, MOOV), Ok(step));
    let open = join(&[be(0), b"moov".to_vec()]);
    let step = ScanStep::Read { size: 90, normalize: true };
    assert_eq!(scan_top_level(&open, 10, 100, MOOV), Ok(step));
    assert_eq!(scan_top_level(&[0; 7], 93, 100, MOOV), Ok(ScanStep::Stop));
    let cut = join(&[be(1), b"free".to_vec()]);
    assert_eq!(scan_top_level(&cut, 92, 100, MOOV), Ok(ScanStep::Truncated));
    let long = boxed(b"free", &[0; 4]);
    let r = scan_top_level(&long, 92, 100, MOOV);
    assert_eq!(r, Err(parse_failure("MP4 box extends past end of file")));
}

#[test]
fn an_open_size_is_written_out() {
    let mut bytes = join(&[be(0), b"moov".to_vec(), vec![9; 292]]);
    assert_eq!(normalize_box_size(&mut bytes), Ok(()));
    assert_eq!(&bytes[..8], b"\x00\x00\x01\x2cmoov");
    assert_eq!(bytes.len(), 300);
    assert_eq!(BoxHeader::read(&bytes, 0).unwrap().unwrap().size, 300);
}

#[test]
fn a_search_in_parts_finds_the_same() {
    let samples = [frame(10), frame(254), vec![0x40, 0, 0, 0], frame(0)];
    for file in [file_of(&samples), fast_start_file_of(&samples)] {
        assert_eq!(analyze_in_parts(&file).unwrap(), analyze_locations(&file).unwrap());
    }
}

#[test]
fn a_search_asks_for_little() {
    let file = file_of(&[frame(10)]);
    let search = FileAnalysis::new(file.len() as u64);
    assert_eq!(search.request(), Some(ReadRequest { offset: 0, len: 128 }));
    let search = search.supply(file[..128].to_vec());
    assert_eq!(search.request(), Some(ReadRequest { offset: 0, len: 16 }));
    let search = search.supply(file[..16].to_vec());
    let mdat = ftyp().len();
    assert_eq!(search.request(), Some(ReadRequest { offset: mdat as u64, len: 16 }));
    let search = search.supply(file[mdat..mdat + 16].to_vec());
    let moov = mdat + 12;
    assert_eq!(search.request(), Some(ReadRequest { offset: moov as u64, len: 16 }));
    let search = search.supply(file[moov..moov + 16].to_vec());
    let len = file.len() - moov;
    assert_eq!(search.request(), Some(ReadRequest { offset: moov as u64, len }));
    let search = search.supply(file[moov..].to_vec());
    assert_eq!(search.request(), Some(ReadRequest { offset: mdat as u64 + 8, len: 4 }));
    let search = search.supply(frame(10));
    assert_eq!(search.request(), None);
    assert_eq!(search.into_outcome().unwrap().unwrap().len(), 1);
}

#[test]
fn a_search_in_parts_turns_files_down() {
    let fault = |e| Err(FileFault::Reject(e));
    assert_eq!(analyze_in_parts(b"RIFF"), fault(Error::NotMp4));
    assert_eq!(analyze_in_parts(&ftyp()), fault(Error::NoMoovBox));
    let cut = join(&[ftyp(), be(1), b"free".to_vec()]);
    assert_eq!(analyze_in_parts(&cut), Err(FileFault::Truncated));
    let bad = join(&[ftyp(), be(4), b"free".to_vec()]);
    assert_eq!(analyze_in_parts(&bad), fault(parse_failure("invalid MP4 box size")));
    let empty = join(&[ftyp(), boxed(b"moov", &[])]);
    assert_eq!(analyze_in_parts(&empty), fault(Error::NoAacTrack));
    let mut stbl = stbl_for(&[4], 0);
    stbl[3] = full(b"stco", &[1000, 1]);
    let far = join(&[ftyp(), boxed(b"moov", &track(&stbl))]);
    assert_eq!(analyze_in_parts(&far), Err(FileFault::OutOfRange));
    let moov = boxed(b"moov", &track(&stbl_for(&[4], 0xffff_0000)));
    let lost = join(&[ftyp(), moov]);
    assert_eq!(analyze_in_parts(&lost), fault(Error::AacParseFailure { warnings: 1 }));
}

#[test]
fn an_open_movie_box_is_read_in_parts() {
    let mut file = file_of(&[frame(10), frame(20)]);
    let moov = ftyp().len() + 16;
    file[moov..moov + 4].copy_from_slice(&[0; 4]);
    let found = analyze_in_parts(&file).unwrap();
    assert_eq!(found.iter().map(|l| l.original_gain).collect::<Vec<u8>>(), vec![10, 20]);
    assert_eq!(aac_apply_gain(&file, 1), Err(Error::NoAacTrack));
}

#[test]
fn patching_in_chunks_is_shifting() {
    // Gains on both sides of the limit of a chunk.
    let samples = [frame(10), vec![0x40; 0x10_0000 - 8], frame(20), frame(0), frame(30), frame(255)];
    let file = file_of(&samples);
    let locs = analyze_locations(&file).unwrap();
    assert_eq!(locs.len(), 5);
    for steps in [3, -12, 300] {
        let mut patched = file.clone();
        let modified = patch_in_parts(&mut patched, &locs, steps);
        let mut shifted = file.clone();
        assert_eq!(apply_gain_to_bytes(&mut shifted, steps), Ok(modified));
        assert_eq!(patched, shifted);
    }
    let start = locs[0].file_offset;
    assert_eq!(
        next_chunk(&locs, 0, 3),
        Some(PatchChunk { first: 0, end: 2, start, len: 0x10_0000 - 2 })
    );
    let start = locs[3].file_offset;
    assert_eq!(next_chunk(&locs, 2, 3), Some(PatchChunk { first: 3, end: 5, start, len: 2 }));
    assert_eq!(next_chunk(&locs, 4, 3), None);
}

#[test]
fn the_order_of_fields() {
    let at = |offset, gain| AacGainLocation::new(0, offset, 0, 0, 0, gain);
    assert!(is_in_order(&[]));
    assert!(is_in_order(&[at(1, 0), at(1, 0), at(5, 0)]));
    assert!(!is_in_order(&[at(1, 0), at(5, 0), at(4, 0)]));
    assert!(will_modify(&at(0, 7), 1));
    assert!(!will_modify(&at(0, 0), 1));
    assert!(!will_modify(&at(0, 255), 1));
    assert_eq!(next_chunk(&[at(3, 0), at(9, 255)], 0, 1), None);
}

#[test]
fn a_search_in_the_output_finds_the_same_places() {
    let file = fast_start_file_of(&[frame(10), frame(254), frame(0)]);
    let before = analyze_in_parts(&file).unwrap();
    let mut out = file.clone();
    patch_in_parts(&mut out, &before, 4);
    let after = analyze_in_parts(&out).unwrap();
    assert_eq!(before.len(), after.len());
    for (a, b) in before.iter().zip(after.iter()) {
        assert_eq!((a.file_offset, a.bit_offset), (b.file_offset, b.bit_offset));
    }
    let values: Vec<u8> = after.iter().map(|l| l.original_gain).collect();
    assert_eq!(values, vec![14, 255, 0]);
}

#[test]
fn the_record_disturbs_no_search() {
    for file in [file_of(&[frame(10), frame(20)]), fast_start_file_of(&[frame(10), frame(20)])] {
        let before = analyze_in_parts(&file).unwrap();
        let longer = join(&[file, gain_metadata_box(3)]);
        assert_eq!(analyze_in_parts(&longer).unwrap(), before);
        assert_eq!(analyze_locations(&longer).unwrap(), before);
    }
}

#[test]
fn the_record_of_a_gain() {
    let bytes = gain_metadata_box(-12);
    let text = "m4againpy version=1 gain_steps=-12 gain_step_db=1.5";
    assert_eq!(bytes.len(), 24 + text.len());
    assert_eq!(read_u32_be(&bytes, 0) as usize, bytes.len());
    assert_eq!(&bytes[4..8], b"uuid");
    assert_eq!(bytes[8..12], [0x95, 0xa5, 0x87, 0x70]);
    assert_eq!(bytes[20..24], [0x58, 0xbf, 0x35, 0x80]);
    assert_eq!(&bytes[24..], text.as_bytes());
}
