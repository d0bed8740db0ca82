use reticle_app::cli::{flag_value, has_flag, LaunchOptions};

fn args(list: &[&str]) -> Vec<String> {
    list.iter().map(|s| s.to_string()).collect()
}

#[test]
fn flag_value_reads_the_following_argument() {
    let a = args(&["--out", "frames", "--tour"]);
    assert_eq!(flag_value(&a, "--out"), Some("frames".to_string()));
    assert_eq!(flag_value(&a, "--tour"), None);
    assert_eq!(flag_value(&a, "--missing"), None);
}

#[test]
fn flag_value_uses_the_first_occurrence() {
    let a = args(&["--out", "a", "--out", "b"]);
    assert_eq!(flag_value(&a, "--out"), Some("a".to_string()));
}

#[test]
fn launch_options_defaults() {
    let o = LaunchOptions::from_args(&[]);
    assert!(!o.gallery);
    assert!(!o.tour);
    assert_eq!(o.screenshot_smoke, None);
    assert_eq!(o.demo_script, None);
    assert_eq!(o.out_dir, "scratch/ui-frames");
}

#[test]
fn launch_options_read_every_flag() {
    let a = args(&[
        "--gallery",
        "--screenshot-smoke",
        "shot.png",
        "--demo-script",
        "demo.txt",
        "--out",
        "media",
    ]);
    let o = LaunchOptions::from_args(&a);
    assert!(o.gallery);
    assert!(!o.tour);
    assert!(has_flag(&a, "--gallery"));
    assert_eq!(o.screenshot_smoke.as_deref(), Some("shot.png"));
    assert_eq!(o.demo_script.as_deref(), Some("demo.txt"));
    assert_eq!(o.out_dir, "media");
}
