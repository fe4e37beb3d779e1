use aura_nexus::models::{
    decimal_text, find_model, first_present, format_size, is_gguf, merge_models, scan_models,
    sort_by_name, sorts_before, ModelInfo, ScannedFile,
};

#[test]
fn test_format_size() {
    assert_eq!(format_size(0), "0 B");
    assert_eq!(format_size(1023), "1023.00 B");
    assert_eq!(format_size(1024), "1.00 KB");
    assert_eq!(format_size(1536), "1.50 KB");
    assert_eq!(format_size(1048576), "1.00 MB");
    assert_eq!(format_size(1073741824), "1.00 GB");
}

#[test]
fn sizes_agree_with_floating_point_formatting() {
    fn reference(bytes: u64) -> String {
        const UNITS: &[&str] = &["B", "KB", "MB", "GB", "TB"];
        if bytes == 0 {
            return "0 B".to_string();
        }
        let bytes_f = bytes as f64;
        let i = (bytes_f.log10() / 1024_f64.log10()).floor() as usize;
        let i = i.min(UNITS.len() - 1);
        let size = bytes_f / 1024_f64.powi(i as i32);
        format!("{:.2} {}", size, UNITS[i])
    }
    let mut samples: Vec<u64> = vec![1, 9, 10, 99, 100, 999, 1000, 1025, 1152, 1280, 1408, 2047];
    for power in 1..5u32 {
        let unit = 1024u64.pow(power);
        for delta in 0..4 {
            samples.push(unit - delta);
            samples.push(unit + delta);
            samples.push(unit * 3 / 2 + delta);
            samples.push(unit * 1000 + delta);
        }
    }
    let mut state: u64 = 0x2545_f491_4f6c_dd1d;
    for _ in 0..20000 {
        state ^= state << 13;
        state ^= state >> 7;
        state ^= state << 17;
        samples.push(state >> (state % 23 + 11));
    }
    for bytes in samples {
        assert_eq!(format_size(bytes), reference(bytes), "for {} bytes", bytes);
    }
}

#[test]
fn sizes_round_half_to_even() {
    // 1152 / 1024 = 1.125 and 1408 / 1024 = 1.375, both exactly
    assert_eq!(format_size(1152), "1.12 KB");
    assert_eq!(format_size(1408), "1.38 KB");
}

#[test]
fn sizes_just_below_a_unit_round_up_to_1024() {
    assert_eq!(format_size(1048575), "1024.00 KB");
    assert_eq!(format_size(1073741823), "1024.00 MB");
}

#[test]
fn sizes_above_a_terabyte_stay_in_terabytes() {
    assert_eq!(format_size(1099511627776), "1.00 TB");
    assert_eq!(format_size(1125899906842624), "1024.00 TB");
    assert_eq!(format_size(u64::MAX), "16777216.00 TB");
}

#[test]
fn numbers_are_written_in_decimal() {
    assert_eq!(decimal_text(0), "0");
    assert_eq!(decimal_text(7), "7");
    assert_eq!(decimal_text(10), "10");
    assert_eq!(decimal_text(1023), "1023");
    assert_eq!(decimal_text(u64::MAX), "18446744073709551615");
}

#[test]
fn model_record_carries_its_readable_size() {
    let info = ModelInfo::new("/models/tiny.gguf".to_string(), "tiny.gguf".to_string(), 1536, 42);
    assert_eq!(info.path, "/models/tiny.gguf");
    assert_eq!(info.name, "tiny.gguf");
    assert_eq!(info.size, 1536);
    assert_eq!(info.size_human, "1.50 KB");
    assert_eq!(info.modified, 42);
    let copy = info.clone();
    assert_eq!(copy.size_human, "1.50 KB");
    assert_eq!(copy.name, "tiny.gguf");
}

fn scanned(name: &str, extension: Option<&str>, size: Option<u64>) -> ScannedFile {
    ScannedFile {
        path: format!("/models/{}", name),
        name: name.to_string(),
        extension: extension.map(|e| e.to_string()),
        size,
        modified: 7,
    }
}

#[test]
fn model_files_end_in_gguf() {
    assert!(is_gguf("gguf"));
    assert!(is_gguf("GGUF"));
    assert!(is_gguf("GgUf"));
    assert!(!is_gguf("ggu"));
    assert!(!is_gguf("gguff"));
    assert!(!is_gguf("ggml"));
    assert!(!is_gguf(""));
    assert!(!is_gguf("ggüf"));
}

#[test]
fn scan_lists_the_model_files_by_name() {
    let files = vec![
        scanned("zeta.gguf", Some("gguf"), Some(1024)),
        scanned("notes.txt", Some("txt"), Some(5)),
        scanned("alpha.GGUF", Some("GGUF"), Some(1536)),
        scanned("folder.gguf", Some("gguf"), None),
        scanned("README", None, Some(9)),
        scanned("Beta.gguf", Some("gguf"), Some(0)),
    ];
    let models = scan_models(&files);
    let names: Vec<&str> = models.iter().map(|m| m.name.as_str()).collect();
    // capital letters sort before small ones
    assert_eq!(names, vec!["Beta.gguf", "alpha.GGUF", "zeta.gguf"]);
    assert_eq!(models[1].path, "/models/alpha.GGUF");
    assert_eq!(models[1].size, 1536);
    assert_eq!(models[1].size_human, "1.50 KB");
    assert_eq!(models[1].modified, 7);
    assert_eq!(models[0].size_human, "0 B");
    assert!(scan_models(&Vec::new()).is_empty());
}

#[test]
fn models_of_one_name_stay_in_their_order() {
    let models = vec![
        ModelInfo::new("/b/m.gguf".to_string(), "m.gguf".to_string(), 1, 0),
        ModelInfo::new("/a/a.gguf".to_string(), "a.gguf".to_string(), 2, 0),
        ModelInfo::new("/a/m.gguf".to_string(), "m.gguf".to_string(), 3, 0),
        ModelInfo::new("/c/ab.gguf".to_string(), "ab.gguf".to_string(), 4, 0),
    ];
    let sorted = sort_by_name(models);
    let paths: Vec<&str> = sorted.iter().map(|m| m.path.as_str()).collect();
    assert_eq!(paths, vec!["/a/a.gguf", "/c/ab.gguf", "/b/m.gguf", "/a/m.gguf"]);
}

#[test]
fn names_sort_as_their_bytes_do() {
    let names = ["", "a", "A", "ab", "b", "é", "z", "aa", "a0", "Z"];
    for a in names {
        for b in names {
            assert_eq!(sorts_before(a, b), a <= b, "for {:?} and {:?}", a, b);
        }
    }
}

#[test]
fn models_of_several_places_are_merged_without_a_path_twice() {
    let mut all = vec![ModelInfo::new("/x/a.gguf".to_string(), "a.gguf".to_string(), 1, 0)];
    let found = vec![
        ModelInfo::new("/y/a.gguf".to_string(), "a.gguf".to_string(), 2, 0),
        ModelInfo::new("/x/a.gguf".to_string(), "a.gguf".to_string(), 3, 0),
        ModelInfo::new("/y/a.gguf".to_string(), "other.gguf".to_string(), 4, 0),
    ];
    merge_models(&mut all, &found);
    let sizes: Vec<u64> = all.iter().map(|m| m.size).collect();
    assert_eq!(sizes, vec![1, 2]);
    merge_models(&mut all, &Vec::new());
    assert_eq!(all.len(), 2);
}

#[test]
fn first_model_file_is_the_one_loaded() {
    let extensions = vec![None, Some("txt".to_string()), Some("GGUF".to_string()), Some("gguf".to_string())];
    assert_eq!(find_model(&extensions), Some(2));
    assert_eq!(find_model(&vec![None, Some("bin".to_string())]), None);
    assert_eq!(find_model(&Vec::new()), None);
}

#[test]
fn first_place_that_holds_it_is_taken() {
    assert_eq!(first_present(&vec![false, true, true]), Some(1));
    assert_eq!(first_present(&vec![true]), Some(0));
    assert_eq!(first_present(&vec![false, false]), None);
    assert_eq!(first_present(&Vec::new()), None);
}
