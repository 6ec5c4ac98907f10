use rustfs::bench::{
    config_write_size, count_nesting_marks, dd_arguments, dd_command_arguments, parse_u64, seq_write_step,
    write_size, write_size_from_entries, SeqWriteAction, SeqWriteEvent, SeqWritePhase, MAX_NESTING_MARKS,
};
use rustfs::utils::random_content;

const CONFIG: &str = "[common]\nSSD_PATH = \"/mnt/ssd\"\n\n[sequential_write]\nBS = \"4KB\"\nCOUNT = 256\noflag = \"direct\"\n";

fn chars(s: &str) -> Vec<char> {
    s.chars().collect()
}

#[test]
fn dd_arguments_from_config() {
    let args = dd_arguments(CONFIG).unwrap();
    assert_eq!(
        args,
        vec!["if=/dev/zero", "of=/mnt/ssd/testfile", "bs=4KB", "count=256", "oflag=direct"]
    );
}

#[test]
fn dd_arguments_missing_entry() {
    assert_eq!(dd_arguments("[common]\nSSD_PATH = \"/mnt\"\n"), None);
    assert_eq!(dd_arguments("not toml at all ["), None);
}

#[test]
fn dd_command_arguments_strip_quotes() {
    let args = dd_command_arguments(
        "\"/data\"".to_string(),
        "\"1MB\"".to_string(),
        "10".to_string(),
        "\"sync\"".to_string(),
    )
    .unwrap();
    assert_eq!(args, vec!["if=/dev/zero", "of=/data/testfile", "bs=1MB", "count=10", "oflag=sync"]);
    assert_eq!(dd_command_arguments("x".to_string(), "\"1MB\"".to_string(), "1".to_string(), "\"a\"".to_string()), None);
}

#[test]
fn parse_u64_forms() {
    assert_eq!(parse_u64(&chars("256")), Some(256));
    assert_eq!(parse_u64(&chars("+7")), Some(7));
    assert_eq!(parse_u64(&chars("007")), Some(7));
    assert_eq!(parse_u64(&chars("18446744073709551615")), Some(u64::MAX));
    assert_eq!(parse_u64(&chars("18446744073709551616")), None);
    assert_eq!(parse_u64(&chars("")), None);
    assert_eq!(parse_u64(&chars("+")), None);
    assert_eq!(parse_u64(&chars("-1")), None);
    assert_eq!(parse_u64(&chars("12a")), None);
}

#[test]
fn write_size_units() {
    assert_eq!(write_size("4KB", 256), Some(4 * 1024 * 256));
    assert_eq!(write_size("1MB", 3), Some(3 * 1048576));
    assert_eq!(write_size("2G", 1), Some(2 * 1073741824));
    assert_eq!(write_size("512B", 1), None);
    assert_eq!(write_size("512", 1), None);
    assert_eq!(write_size("KB", 1), None);
    assert_eq!(write_size("4ÄB", 1), None);
    assert_eq!(write_size("16G", u64::MAX / 1024), None);
}

#[test]
fn write_size_from_config() {
    assert_eq!(config_write_size(CONFIG), Some(4 * 1024 * 256));
    assert_eq!(write_size_from_entries("\"8MB\"".to_string(), "2".to_string()), Some(16 * 1048576));
    assert_eq!(write_size_from_entries("\"8MB\"".to_string(), "two".to_string()), None);
    assert_eq!(config_write_size("[sequential_write]\nBS = \"4KB\"\n"), None);
}

#[test]
fn random_content_is_alphanumeric() {
    let s = random_content(10);
    assert_eq!(s.chars().count(), 10);
    assert_eq!(s.len(), 10);
    assert!(s.chars().all(|c| c.is_ascii_alphanumeric()));
    assert_eq!(random_content(0), "");
}

#[test]
fn nesting_marks_bound_the_config() {
    assert_eq!(count_nesting_marks(CONFIG), 2);
    assert_eq!(count_nesting_marks("a.b = [{x = 1.5}]"), 4);
    let mut nested = CONFIG.to_string();
    nested.push_str("[deep]\nv = ");
    nested.push_str(&"[".repeat(120));
    nested.push('1');
    nested.push_str(&"]".repeat(120));
    nested.push('\n');
    assert_eq!(count_nesting_marks(&nested), 123);
    assert_eq!(config_write_size(&nested), Some(4 * 1024 * 256));
    let mut too_deep = CONFIG.to_string();
    too_deep.push_str("[deep]\nv = ");
    too_deep.push_str(&"[".repeat(MAX_NESTING_MARKS));
    too_deep.push('1');
    too_deep.push_str(&"]".repeat(MAX_NESTING_MARKS));
    assert_eq!(dd_arguments(&too_deep), None);
    assert_eq!(config_write_size(&too_deep), None);
    assert_eq!(dd_arguments(&"[".repeat(100_000)), None);
}

#[test]
fn seq_write_runs_in_order() {
    let mut phase = SeqWritePhase::Begin;
    let events = [
        SeqWriteEvent::Start,
        SeqWriteEvent::DeviceLookedUp(true),
        SeqWriteEvent::Opened(false),
        SeqWriteEvent::ChannelGot(true),
        SeqWriteEvent::WriteDone(false),
        SeqWriteEvent::Released,
    ];
    let mut actions = Vec::new();
    for e in events {
        let (next, action) = seq_write_step(phase, e, 4096);
        phase = next;
        actions.push(action);
    }
    assert_eq!(
        actions,
        vec![
            SeqWriteAction::LookUpDevice,
            SeqWriteAction::OpenForWriting,
            SeqWriteAction::GetIoChannel,
            SeqWriteAction::WriteBuffer(4096),
            SeqWriteAction::Release,
            SeqWriteAction::Finish(true),
        ]
    );
    assert_eq!(phase, SeqWritePhase::Done);
    assert_eq!(seq_write_step(SeqWritePhase::Done, SeqWriteEvent::Start, 1), (SeqWritePhase::Done, SeqWriteAction::Nothing));
}

#[test]
fn seq_write_failures() {
    assert_eq!(
        seq_write_step(SeqWritePhase::AwaitDevice, SeqWriteEvent::DeviceLookedUp(false), 8),
        (SeqWritePhase::Done, SeqWriteAction::Abort)
    );
    assert_eq!(
        seq_write_step(SeqWritePhase::AwaitChannel, SeqWriteEvent::ChannelGot(false), 8),
        (SeqWritePhase::Done, SeqWriteAction::Finish(false))
    );
    assert_eq!(
        seq_write_step(SeqWritePhase::AwaitOpen, SeqWriteEvent::Released, 8),
        (SeqWritePhase::AwaitOpen, SeqWriteAction::Nothing)
    );
}
