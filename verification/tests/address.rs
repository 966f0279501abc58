//! Local and remote locations.

use cp2::address::{Location, RemoteTarget};

#[test]
fn parse_numeric_suffix_is_path_not_port() {
    let loc = Location::parse("user@127.0.0.1:4433/backup");
    match loc {
        Location::Remote(r) => {
            assert_eq!(r.user, "user");
            assert_eq!(r.host, "127.0.0.1");
            assert_eq!(r.port, 22);
            assert_eq!(r.path, "4433/backup");
        }
        Location::Local(_) => panic!("expected remote"),
    }
    let loc = Location::parse("user@127.0.0.1:4433");
    match loc {
        Location::Remote(r) => {
            assert_eq!(r.port, 22);
            assert_eq!(r.path, "4433");
        }
        Location::Local(_) => panic!("expected remote"),
    }
}

#[test]
fn parse_host_slash_path_defaults_port() {
    let loc = Location::parse("user@127.0.0.1:/data");
    match loc {
        Location::Remote(r) => {
            assert_eq!(r.port, 22);
            assert_eq!(r.path, "/data");
        }
        Location::Local(_) => panic!("expected remote"),
    }
}

#[test]
fn parse_rsync_host_colon_path_keeps_path() {
    let loc = Location::parse("user@127.0.0.1:backup");
    match loc {
        Location::Remote(r) => {
            assert_eq!(r.port, 22);
            assert_eq!(r.path, "backup");
        }
        Location::Local(_) => panic!("expected remote"),
    }
}

#[test]
fn parse_rsync_host_colon_path_with_slashes_keeps_all_segments() {
    let loc = Location::parse("user@127.0.0.1:softwares/cp2");
    match loc {
        Location::Remote(r) => {
            assert_eq!(r.port, 22);
            assert_eq!(r.path, "softwares/cp2");
        }
        Location::Local(_) => panic!("expected remote"),
    }
}

#[test]
fn parse_absolute_path_after_colon() {
    let loc = Location::parse("user@host:/home/user/softwares/cp2");
    match loc {
        Location::Remote(r) => {
            assert_eq!(r.port, 22);
            assert_eq!(r.path, "/home/user/softwares/cp2");
        }
        Location::Local(_) => panic!("expected remote"),
    }
    let loc = Location::parse("user@host:/");
    assert_eq!(
        match loc {
            Location::Remote(r) => r.path,
            Location::Local(_) => panic!("expected remote"),
        },
        "/"
    );
    let loc = Location::parse("user@host:");
    assert_eq!(
        match loc {
            Location::Remote(r) => r.path,
            Location::Local(_) => panic!("expected remote"),
        },
        ""
    );
}

#[test]
fn parse_hostname_kept_verbatim() {
    let loc = Location::parse("alice@backup.example.com:2222");
    match loc {
        Location::Remote(r) => {
            assert_eq!(r.host, "backup.example.com");
            assert_eq!(r.port, 22);
            assert_eq!(r.path, "2222");
        }
        Location::Local(_) => panic!("expected remote"),
    }
}

#[test]
fn parse_local() {
    assert!(matches!(
        Location::parse("/tmp/foo"),
        Location::Local(_)
    ));
}

#[test]
fn parse_ipv6_bracketed_with_numeric_suffix() {
    let loc = Location::parse("user@[::1]:2222/backup");
    match loc {
        Location::Remote(r) => {
            assert_eq!(r.user, "user");
            assert_eq!(r.host, "::1");
            assert_eq!(r.port, 22);
            assert_eq!(r.path, "2222/backup");
        }
        Location::Local(_) => panic!("expected remote"),
    }
}

#[test]
fn parse_ipv6_bracketed_without_port() {
    let loc = Location::parse("user@[::1]/data");
    match loc {
        Location::Remote(r) => {
            assert_eq!(r.host, "::1");
            assert_eq!(r.port, 22);
            assert_eq!(r.path, "data");
        }
        Location::Local(_) => panic!("expected remote"),
    }
}

#[test]
fn parse_ipv6_bracketed_numeric_suffix_only() {
    let loc = Location::parse("user@[fe80::1]:4433");
    match loc {
        Location::Remote(r) => {
            assert_eq!(r.host, "fe80::1");
            assert_eq!(r.port, 22);
            assert_eq!(r.path, "4433");
        }
        Location::Local(_) => panic!("expected remote"),
    }
}

#[test]
fn parse_ipv6_bracketed_absolute_path() {
    let loc = Location::parse("user@[::1]:/data");
    match loc {
        Location::Remote(r) => {
            assert_eq!(r.host, "::1");
            assert_eq!(r.port, 22);
            assert_eq!(r.path, "/data");
        }
        Location::Local(_) => panic!("expected remote"),
    }
}

#[test]
fn parse_ipv6_unbracketed_without_port() {
    let loc = Location::parse("user@::1/data");
    match loc {
        Location::Remote(r) => {
            assert_eq!(r.host, "::1");
            assert_eq!(r.port, 22);
            assert_eq!(r.path, "data");
        }
        Location::Local(_) => panic!("expected remote"),
    }
}

#[test]
fn parse_numeric_overflow_suffix_is_plain_path() {
    let loc = Location::parse("user@[::1]:99999/x");
    match loc {
        Location::Remote(r) => {
            assert_eq!(r.port, 22);
            assert_eq!(r.path, "99999/x");
        }
        Location::Local(_) => panic!("expected remote"),
    }
}

#[test]
fn parse_first_colon_splits_verbatim_path() {
    let loc = Location::parse("user@host:a:b");
    match loc {
        Location::Remote(r) => {
            assert_eq!(r.user, "user");
            assert_eq!(r.host, "host");
            assert_eq!(r.path, "a:b");
        }
        Location::Local(_) => panic!("expected remote"),
    }
}

#[test]
fn parse_at_sign_in_local_path_stays_local() {
    assert!(matches!(
        Location::parse("./foo@bar"),
        Location::Local(_)
    ));
    assert!(matches!(
        Location::parse("C:\\Users\\alice@corp\\file"),
        Location::Local(_)
    ));
    assert!(matches!(
        Location::parse("alice@host\\backup"),
        Location::Local(_)
    ));
}

#[test]
fn parse_empty_host_not_localhost() {
    let loc = Location::parse("user@:path");
    match loc {
        Location::Remote(r) => assert_eq!(r.host, ""),
        Location::Local(_) => panic!("expected remote"),
    }
    let loc = Location::parse("user@:");
    match loc {
        Location::Remote(r) => assert_eq!(r.host, ""),
        Location::Local(_) => panic!("expected remote"),
    }
}

fn remote(s: &str) -> RemoteTarget {
    match Location::parse(s) {
        Location::Remote(r) => r,
        Location::Local(_) => panic!("expected remote"),
    }
}

#[test]
fn path_is_taken_to_the_letter() {
    assert_eq!(remote("u@h:a/").path, "a/");
    assert_eq!(remote("u@h:a:/b").path, "a:/b");
    assert_eq!(remote("u@[::1]:a/").path, "a/");
    assert_eq!(remote("u@h/x/y").path, "x/y");
    assert_eq!(remote("u@h").path, "");
}

#[test]
fn unclosed_bracket_is_part_of_the_host() {
    let r = remote("u@[::1");
    assert_eq!(r.host, "[::1");
    assert_eq!(r.path, "");
}

#[test]
fn locations_are_shown_without_port() {
    assert_eq!(Location::parse("u@h:p").show(), "u@h:p");
    assert_eq!(Location::parse("u@h/p").show(), "u@h:p");
    assert_eq!(Location::parse("/tmp/x").show(), "/tmp/x");
}

#[test]
fn text_behind_a_bracketed_host_is_cut_at_its_slash() {
    match Location::parse("user@[::1]x:/p") {
        Location::Remote(r) => {
            assert_eq!(r.host, "::1");
            assert_eq!(r.path, "/p");
        }
        Location::Local(_) => panic!("expected remote"),
    }
}
