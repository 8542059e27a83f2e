use filetools::cs::{
    ascii_filename, new_name, numbered_filename, Collision, NumberingError, Opts,
};

#[test]
fn test_numbered_filename() {
    assert_eq!("file.001", numbered_filename("file").unwrap());
    assert_eq!("file.001.sfx", numbered_filename("file.sfx").unwrap());
    assert_eq!("file.002.sfx", numbered_filename("file.001.sfx").unwrap());
    assert_eq!("many.dots.file.022.sfx", numbered_filename("many.dots.file.021.sfx").unwrap());
    assert_eq!("file.001.007", numbered_filename("file.007").unwrap());
}

#[test]
fn numbered_filename_counts_on() {
    assert_eq!("file.010.sfx", numbered_filename("file.9.sfx").unwrap());
    assert_eq!("file.1000.sfx", numbered_filename("file.999.sfx").unwrap());
    assert_eq!("file.006.sfx", numbered_filename("file.+5.sfx").unwrap());
    assert_eq!("file.65535.sfx", numbered_filename("file.65534.sfx").unwrap());
    assert_eq!("file.65536.001.sfx", numbered_filename("file.65536.sfx").unwrap());
    assert_eq!("file.-1.001.sfx", numbered_filename("file.-1.sfx").unwrap());
    assert_eq!("file..001.sfx", numbered_filename("file..sfx").unwrap());
    assert_eq!(".001", numbered_filename("").unwrap());
    assert_eq!("001.7", numbered_filename("0.7").unwrap());
    assert_eq!(Err(NumberingError::NumbersExhausted), numbered_filename("file.65535.sfx"));
}

#[test]
fn test_safe_name() {
    assert_eq!("fine".to_string(), ascii_filename("fine"));
    assert_eq!("downcase".to_string(), ascii_filename("DoWnCaSe"));
    assert_eq!("w_h_i_t_e_s_p_a_c_e_".to_string(), ascii_filename(" w h i t e   s p a c e "));
    assert_eq!("squashed-dashes", ascii_filename("Squashed - Dashes"));
    assert_eq!("no_nonsense.file", ascii_filename("$$No!!! NonSense:^\"£§™.FILE"));
    assert_eq!("aeneid", ascii_filename("Æneid"));
    assert_eq!("_dotfile.sfx", ascii_filename(".dotfile.sfx"));
    assert_eq!("wen_zi_hua_ke", ascii_filename("文字化け"));
    assert_eq!("UNTRANSLATABLE", ascii_filename("$(($$$$))[[$$$$]]$"));
    assert_eq!("1990-02-02-no_known_cure.mp3", ascii_filename("1990-02-02 - No Known Cure.mp3"));
}

#[test]
fn safe_name_edges() {
    assert_eq!("UNTRANSLATABLE", ascii_filename(""));
    assert_eq!("a-_b", ascii_filename("a- b"));
    assert_eq!("a-b", ascii_filename("a -b"));
    assert_eq!("-a", ascii_filename("-a"));
    assert_eq!("_a", ascii_filename("_ a"));
    assert_eq!("etude", ascii_filename("étude"));
    // A dash takes the place of whatever was written last once an underscore was noted.
    assert_eq!("_-", ascii_filename("_é-"));
}

#[test]
fn new_names_and_collisions() {
    assert_eq!(None, new_name("fine.txt"));
    assert_eq!(Some("not_fine.txt".to_string()), new_name("Not Fine.txt"));
    let mut opts = Opts { noop: false, clobber: false, nonumber: false, verbose: false };
    assert_eq!(Collision::Number, opts.on_collision());
    assert_eq!((false, true), opts.rename_file());
    opts.nonumber = true;
    assert_eq!(Collision::Refuse, opts.on_collision());
    opts.clobber = true;
    assert_eq!(Collision::Overwrite, opts.on_collision());
    opts.noop = true;
    assert_eq!((true, false), opts.rename_file());
}
