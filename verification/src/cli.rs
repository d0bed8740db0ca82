//! The native launcher's command-line flags.
use vstd::prelude::*;
use crate::text::{chars_eq_str, chars_of, string_of};

verus! {

/// The position of the first argument equal to `flag`, if any.
pub open spec fn first_index_of(args: Seq<Seq<char>>, flag: Seq<char>) -> Option<int>
    decreases args.len(),
{
    if args.len() == 0 {
        None
    } else if args[0] == flag {
        Some(0)
    } else {
        match first_index_of(args.drop_first(), flag) {
            Some(i) => Some(i + 1),
            None => None,
        }
    }
}

/// The argument following the first `flag` in `args`, if both are present.
pub open spec fn spec_flag_value(args: Seq<Seq<char>>, flag: Seq<char>) -> Option<Seq<char>> {
    match first_index_of(args, flag) {
        Some(i) => if i + 1 < args.len() {
            Some(args[i + 1])
        } else {
            None
        },
        None => None,
    }
}

/// The text of each argument.
pub open spec fn arg_texts(args: Seq<String>) -> Seq<Seq<char>> {
    args.map_values(|a: String| a@)
}

proof fn lemma_first_index_of(args: Seq<Seq<char>>, flag: Seq<char>, i: int)
    requires
        0 <= i <= args.len(),
        forall|j: int| 0 <= j < i ==> args[j] != flag,
    ensures
        i < args.len() && args[i] == flag ==> first_index_of(args, flag) == Some(i),
        i == args.len() ==> first_index_of(args, flag) is None,
    decreases i,
{
    if i > 0 {
        assert forall|j: int| 0 <= j < i - 1 implies args.drop_first()[j] != flag by {
            assert(args.drop_first()[j] == args[j + 1]);
        }
        lemma_first_index_of(args.drop_first(), flag, i - 1);
    }
}

fn arg_is(arg: &String, flag: &str) -> (r: bool)
    ensures
        r == (arg@ == flag@),
{
    let v = chars_of(arg.as_str());
    chars_eq_str(&v, flag)
}

/// Returns the value following `flag` in `args`, if present.
pub fn flag_value(args: &[String], flag: &str) -> (r: Option<String>)
    ensures
        match r {
            Some(v) => spec_flag_value(arg_texts(args@), flag@) == Some(v@),
            None => spec_flag_value(arg_texts(args@), flag@) is None,
        },
{
    let ghost texts = arg_texts(args@);
    let mut i: usize = 0;
    while i < args.len()
        invariant
            i <= args@.len(),
            texts == arg_texts(args@),
            forall|j: int| 0 <= j < i ==> texts[j] != flag@,
        decreases args@.len() - i,
    {
        if arg_is(&args[i], flag) {
            proof {
                lemma_first_index_of(texts, flag@, i as int);
            }
            if i + 1 < args.len() {
                let v = chars_of(args[i + 1].as_str());
                return Some(string_of(&v));
            }
            return None;
        }
        i = i + 1;
    }
    proof {
        lemma_first_index_of(texts, flag@, i as int);
    }
    None
}

/// Whether `flag` appears anywhere in `args`.
pub fn has_flag(args: &[String], flag: &str) -> (r: bool)
    ensures
        r == arg_texts(args@).contains(flag@),
{
    let ghost texts = arg_texts(args@);
    let mut i: usize = 0;
    while i < args.len()
        invariant
            i <= args@.len(),
            texts == arg_texts(args@),
            forall|j: int| 0 <= j < i ==> texts[j] != flag@,
        decreases args@.len() - i,
    {
        if arg_is(&args[i], flag) {
            assert(texts[i as int] == flag@);
            return true;
        }
        i = i + 1;
    }
    false
}

/// What the launcher was asked to do.
#[derive(Clone, Debug, PartialEq, Eq)]
pub struct LaunchOptions {
    /// `--gallery`: render the component gallery full-window.
    pub gallery: bool,
    /// `--tour`: boot straight into the guided tour.
    pub tour: bool,
    /// `--screenshot-smoke <path>`: capture one screenshot to the path, then exit.
    pub screenshot_smoke: Option<String>,
    /// `--demo-script <file>`: play a demo script, capturing frames.
    pub demo_script: Option<String>,
    /// `--out <dir>`: where captured frames go (`scratch/ui-frames` by default).
    pub out_dir: String,
}

/// The texts of an optional argument.
pub open spec fn opt_text(o: Option<String>) -> Option<Seq<char>> {
    match o {
        Some(s) => Some(s@),
        None => None,
    }
}

impl LaunchOptions {
    /// Reads the launcher's flags from the arguments after the program name.
    pub fn from_args(args: &[String]) -> (r: LaunchOptions)
        ensures
            r.gallery == arg_texts(args@).contains("--gallery"@),
            r.tour == arg_texts(args@).contains("--tour"@),
            opt_text(r.screenshot_smoke) == spec_flag_value(arg_texts(args@), "--screenshot-smoke"@),
            opt_text(r.demo_script) == spec_flag_value(arg_texts(args@), "--demo-script"@),
            r.out_dir@ == (match spec_flag_value(arg_texts(args@), "--out"@) {
                Some(v) => v,
                None => "scratch/ui-frames"@,
            }),
    {
        let out_dir = match flag_value(args, "--out") {
            Some(v) => v,
            None => {
                let d = chars_of("scratch/ui-frames");
                string_of(&d)
            },
        };
        LaunchOptions {
            gallery: has_flag(args, "--gallery"),
            tour: has_flag(args, "--tour"),
            screenshot_smoke: flag_value(args, "--screenshot-smoke"),
            demo_script: flag_value(args, "--demo-script"),
            out_dir,
        }
    }
}

} // verus!
