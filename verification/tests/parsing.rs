use port_scanner::args::{Arguments, DEFAULT_THREADS, MAX_PORT};

fn tokens(words: &[&str]) -> Vec<String> {
    words.iter().map(|w| w.to_string()).collect()
}

#[test]
fn defaults_when_no_arguments() {
    let args = Arguments::new(&tokens(&[])).unwrap();
    assert_eq!(args.addr, "127.0.0.1");
    assert_eq!(args.num_threads, DEFAULT_THREADS);
    assert_eq!(args.start_port, 1);
    assert_eq!(args.end_port, MAX_PORT);
}

#[test]
fn help_flag_alone() {
    assert_eq!(Arguments::new(&tokens(&["-h"])), Err("help"));
    assert_eq!(Arguments::new(&tokens(&["-help"])), Err("help"));
}

#[test]
fn help_flag_with_company() {
    assert_eq!(
        Arguments::new(&tokens(&["-h", "-t", "4"])),
        Err("use -h or -help as an isolated argument")
    );
    assert_eq!(
        Arguments::new(&tokens(&["-i", "-help"])),
        Err("use -h or -help as an isolated argument")
    );
}

#[test]
fn too_many_arguments() {
    let many = tokens(&["-t", "4", "-p", "1-2", "-i", "::1", "extra"]);
    assert_eq!(Arguments::new(&many), Err("too many arguments"));
}

#[test]
fn address_flag_sets_address() {
    let args = Arguments::new(&tokens(&["-i", "10.0.0.1"])).unwrap();
    assert_eq!(args.addr, "10.0.0.1");
    assert_eq!(args.num_threads, DEFAULT_THREADS);
}

#[test]
fn address_flag_without_value() {
    assert_eq!(
        Arguments::new(&tokens(&["-i"])),
        Err("No IP address provided after -i")
    );
}

#[test]
fn thread_flag_sets_count() {
    let args = Arguments::new(&tokens(&["-t", "4"])).unwrap();
    assert_eq!(args.num_threads, 4);
}

#[test]
fn thread_flag_zero_is_rejected() {
    assert_eq!(
        Arguments::new(&tokens(&["-t", "0"])),
        Err("Thread number out of range")
    );
}

#[test]
fn thread_flag_over_max_port_is_rejected() {
    assert_eq!(
        Arguments::new(&tokens(&["-t", "65356"])),
        Err("Thread number out of range")
    );
}

#[test]
fn thread_flag_garbage_is_rejected() {
    assert_eq!(
        Arguments::new(&tokens(&["-t", "abc"])),
        Err("Invalid thread numbers")
    );
    assert_eq!(
        Arguments::new(&tokens(&["-t", "70000"])),
        Err("Invalid thread numbers")
    );
    assert_eq!(
        Arguments::new(&tokens(&["-t", "-4"])),
        Err("Invalid thread numbers")
    );
}

#[test]
fn thread_flag_without_value() {
    assert_eq!(
        Arguments::new(&tokens(&["-t"])),
        Err("No thread numbers provided after -t")
    );
}

#[test]
fn port_flag_sets_range() {
    let args = Arguments::new(&tokens(&["-p", "8000-8010"])).unwrap();
    assert_eq!(args.start_port, 8000);
    assert_eq!(args.end_port, 8010);
}

#[test]
fn port_flag_reversed_range_is_rejected() {
    assert_eq!(
        Arguments::new(&tokens(&["-p", "100-50"])),
        Err("Starting port needs to be less than Ending port")
    );
}

#[test]
fn port_flag_over_max_is_rejected() {
    assert_eq!(
        Arguments::new(&tokens(&["-p", "1-65356"])),
        Err("Ports must be in range 0-{MAX_PORT}")
    );
}

#[test]
fn port_flag_malformed_pair_is_rejected() {
    assert_eq!(
        Arguments::new(&tokens(&["-p", "8080"])),
        Err("Ports should be in the form port1-port2")
    );
    assert_eq!(
        Arguments::new(&tokens(&["-p", "1-2-3"])),
        Err("Ports should be in the form port1-port2")
    );
}

#[test]
fn port_flag_bad_bounds_are_rejected() {
    assert_eq!(
        Arguments::new(&tokens(&["-p", "a-9"])),
        Err("Invalid first port")
    );
    assert_eq!(
        Arguments::new(&tokens(&["-p", "9-b"])),
        Err("Invalid second port")
    );
    assert_eq!(
        Arguments::new(&tokens(&["-p", "9-"])),
        Err("Invalid second port")
    );
}

#[test]
fn port_flag_without_value() {
    assert_eq!(
        Arguments::new(&tokens(&["-p"])),
        Err("No start and ending port provided after -p")
    );
}

#[test]
fn unknown_flag_is_rejected() {
    assert_eq!(Arguments::new(&tokens(&["-x"])), Err("invalid argument"));
    assert_eq!(Arguments::new(&tokens(&["8080"])), Err("invalid argument"));
}

#[test]
fn flags_combine_and_later_wins() {
    let args = Arguments::new(&tokens(&["-t", "2", "-p", "1-9", "-t", "6"])).unwrap();
    assert_eq!(args.num_threads, 6);
    assert_eq!(args.start_port, 1);
    assert_eq!(args.end_port, 9);
}

#[test]
fn plus_sign_and_leading_zeros_parse() {
    let args = Arguments::new(&tokens(&["-t", "+007"])).unwrap();
    assert_eq!(args.num_threads, 7);
}

#[test]
fn equal_bounds_are_accepted() {
    let args = Arguments::new(&tokens(&["-p", "443-443"])).unwrap();
    assert_eq!(args.start_port, 443);
    assert_eq!(args.end_port, 443);
}
