use rust_bl::bootloader::elf::{load_kernel, ElfError};
use rust_bl::xtask::command::{parse_command, Command};
use rust_bl::xtask::image::corrupt_magic;
use rust_bl::xtask::keys::{Injection, InjectionAction, InjectionError};
use rust_bl::xtask::qemu::{arguments, poll, Boot, PollStep};
use rust_bl::xtask::screen::{check_screen_has_text, ScreenError, PAYLOAD};
use rust_bl::xtask::verdict::{judge_run, judge_test, RunVerdict, TestVerdict};

fn args(words: &[&str]) -> Vec<String> {
    words.iter().map(|word| word.to_string()).collect()
}

#[test]
fn the_command_is_the_first_argument() {
    assert_eq!(parse_command(&args(&["xtask", "run"])), Command::Run);
    assert_eq!(parse_command(&args(&["xtask", "test", "more"])), Command::Test);
    assert_eq!(parse_command(&args(&["xtask", "Run"])), Command::Unknown);
    assert_eq!(parse_command(&args(&["xtask"])), Command::Missing);
    assert_eq!(parse_command(&[]), Command::Missing);
}

#[test]
fn exit_codes_are_judged() {
    assert_eq!(judge_run(Some(33)), RunVerdict::CheckScreen);
    assert_eq!(judge_run(Some(35)), RunVerdict::InternalFailure);
    assert_eq!(judge_run(Some(1)), RunVerdict::Unexpected(1));
    assert_eq!(judge_run(None), RunVerdict::Signal);
}

#[test]
fn a_rejected_image_is_what_the_negative_test_wants() {
    assert_eq!(judge_test(true, Ok(Some(35))), TestVerdict::Rejected);
    assert_eq!(judge_test(true, Ok(Some(33))), TestVerdict::NotValidated);
    assert_eq!(judge_test(true, Ok(Some(0))), TestVerdict::Unexpected(0));
    assert_eq!(judge_test(true, Ok(None)), TestVerdict::Signal);
    assert_eq!(judge_test(true, Err(())), TestVerdict::NotBooted);
    assert_eq!(judge_test(false, Ok(Some(35))), TestVerdict::NotRestored);
    assert_eq!(judge_test(false, Err(())), TestVerdict::NotRestored);
}

#[test]
fn a_corrupted_image_keeps_all_but_its_magic() {
    assert_eq!(corrupt_magic(&[1, 2, 3]), None);
    assert_eq!(corrupt_magic(&[1, 2, 3, 4, 5]), Some(b"XXXX\x05".to_vec()));
    let mut image = vec![0u8; 100];
    image[..6].copy_from_slice(&[0x7f, b'E', b'L', b'F', 2, 1]);
    let corrupted = corrupt_magic(&image).unwrap();
    assert_eq!(load_kernel(&corrupted, &mut vec![]), Err(ElfError::BadMagic));
    assert_eq!(load_kernel(&corrupted[..10], &mut vec![]), Err(ElfError::TooSmall));
}

#[test]
fn qemu_gets_its_command_line() {
    let boot = Boot {
        ovmf_code: "CODE.fd".to_string(),
        vars_copy: "VARS.fd".to_string(),
        esp_dir: "esp".to_string(),
        monitor_socket: "/tmp/m.sock".to_string(),
    };
    assert_eq!(
        arguments(&boot),
        args(&[
            "-drive",
            "if=pflash,format=raw,readonly=on,file=CODE.fd",
            "-drive",
            "if=pflash,format=raw,file=VARS.fd",
            "-drive",
            "format=raw,file=fat:rw:esp",
            "-device",
            "isa-debug-exit,iobase=0xf4,iosize=0x04",
            "-no-reboot",
            "-m",
            "256M",
            "-display",
            "none",
            "-serial",
            "stdio",
            "-monitor",
            "unix:/tmp/m.sock,server,nowait",
        ])
    );
}

#[test]
fn a_hanging_qemu_is_noticed() {
    assert_eq!(poll(false, 0), PollStep::Sleep);
    assert_eq!(poll(false, 59_999), PollStep::Sleep);
    assert_eq!(poll(false, 60_000), PollStep::TimedOut);
    assert_eq!(poll(true, 70_000), PollStep::Exited);
}

/// A capture with these three lines in front of `pixels`.
fn capture(magic: &str, dimensions: &str, maxval: &str, pixels: &[u8]) -> Vec<u8> {
    let mut data = format!("{magic}\n{dimensions}\n{maxval}\n").into_bytes();
    data.extend_from_slice(pixels);
    data
}

#[test]
fn a_screen_with_two_colours_has_text() {
    let mut pixels = vec![0x33u8; PAYLOAD];
    pixels[PAYLOAD - 1] = 0x34;
    assert!(check_screen_has_text(&capture("P6", "1280 800", "255", &pixels)).is_ok());
}

#[test]
fn a_line_feed_among_the_pixels_is_a_pixel() {
    let mut pixels = vec![0x0au8; PAYLOAD];
    assert!(matches!(
        check_screen_has_text(&capture("P6", "1280 800", "255", &pixels)),
        Err(ScreenError::FlatColour)
    ));
    pixels[3] = 0;
    assert!(check_screen_has_text(&capture("P6", "1280 800", "255", &pixels)).is_ok());
}

#[test]
fn a_flat_screen_has_no_text() {
    let pixels: Vec<u8> = [0, 51, 153].repeat(PAYLOAD / 3);
    assert!(matches!(
        check_screen_has_text(&capture("P6", "1280 800", "255", &pixels)),
        Err(ScreenError::FlatColour)
    ));
}

#[test]
fn every_bad_capture_has_its_error() {
    let pixels = vec![0u8; PAYLOAD];
    assert!(matches!(check_screen_has_text(b""), Err(ScreenError::NotP6)));
    assert!(matches!(
        check_screen_has_text(&capture("P5", "1280 800", "255", &pixels)),
        Err(ScreenError::NotP6)
    ));
    match check_screen_has_text(&capture("P6", "640 480", "255", &pixels)) {
        Err(ScreenError::WrongDimensions(got)) => assert_eq!(got, b"640 480".to_vec()),
        _ => panic!("the dimensions are wrong"),
    }
    match check_screen_has_text(b"P6") {
        Err(ScreenError::WrongDimensions(got)) => assert_eq!(got, b"".to_vec()),
        _ => panic!("the dimensions are missing"),
    }
    assert!(matches!(
        check_screen_has_text(&capture("P6", "1280 800", "65535", &pixels)),
        Err(ScreenError::WrongMaxval)
    ));
    assert!(matches!(
        check_screen_has_text(&capture("P6", "1280 800", "255", &pixels[1..])),
        Err(ScreenError::Truncated)
    ));
    assert!(matches!(check_screen_has_text(b"P6\n1280 800\n255"), Err(ScreenError::Truncated)));
}

/// Every action of an injection in which all but the listed kinds work.
fn run_injection(failing: &[InjectionAction]) -> (Vec<InjectionAction>, Injection) {
    let mut injection = Injection::new(false);
    let mut actions = Vec::new();
    while injection.action() != InjectionAction::Stop {
        actions.push(injection.action());
        injection = injection.next(!failing.contains(&injection.action()));
    }
    (actions, injection)
}

#[test]
fn keys_are_injected_until_the_backstop() {
    let (actions, end) = run_injection(&[]);
    assert_eq!(end, Injection::Done);
    assert_eq!(
        actions[..8],
        [
            InjectionAction::Sleep(100),
            InjectionAction::Connect,
            InjectionAction::Sleep(4500),
            InjectionAction::Remove,
            InjectionAction::RequestDump,
            InjectionAction::Sleep(500),
            InjectionAction::CheckDump,
            InjectionAction::Sleep(500),
        ]
    );
    let keys = actions.iter().filter(|action| **action == InjectionAction::SendKey).count();
    assert_eq!(keys, 40);
    assert_eq!(actions.len(), 7 + 80);
}

#[test]
fn an_injection_ends_when_qemu_is_gone() {
    let (actions, end) = run_injection(&[InjectionAction::SendKey]);
    assert_eq!(end, Injection::Done);
    assert_eq!(actions.len(), 7 + 2);
}

#[test]
fn every_failed_injection_has_its_error() {
    let (actions, end) = run_injection(&[InjectionAction::Connect]);
    assert_eq!(end, Injection::Failed(InjectionError::NoMonitor));
    assert_eq!(actions.len(), 200);
    let failed = |action| run_injection(&[action]).1;
    assert_eq!(
        failed(InjectionAction::Remove),
        Injection::Failed(InjectionError::OldCaptureStays)
    );
    assert_eq!(
        failed(InjectionAction::RequestDump),
        Injection::Failed(InjectionError::NotRequested)
    );
    assert_eq!(
        failed(InjectionAction::CheckDump),
        Injection::Failed(InjectionError::NotCreated)
    );
}

#[test]
fn a_suppressed_injection_does_nothing() {
    assert_eq!(Injection::new(true).action(), InjectionAction::Stop);
}
