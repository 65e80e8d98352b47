//! The offline engine: where it is, what it is asked to do.
use crate::paths::{join_path, path_join};
use crate::text::{decimal, decimal_text, lemma_decimal_is_unique, texts};
use vstd::prelude::*;

verus! {

/// Why there is no engine.
#[derive(Debug)]
pub enum EngineError {
    /// The given path names no file.
    NotAFile(String),
    /// Nothing was found on the search path.
    NotFound,
}

impl EngineError {
    /// The message for the user.
    pub open spec fn text(self) -> Seq<char> {
        match self {
            EngineError::NotAFile(path) =>
                "--sfizz-render path does not exist or is not a file: "@ + path@,
            EngineError::NotFound =>
                "could not find `sfizz_render` on PATH.\nInstall the sfizz offline renderer (build sfizz with -DSFIZZ_RENDER=ON, or grab a\nprebuilt from https://github.com/sfztools/sfizz/releases) and either put it on PATH\nor pass its location with --sfizz-render <PATH>."@,
        }
    }

    /// The message for the user.
    pub fn message(&self) -> (r: String)
        ensures
            r@ == self.text(),
    {
        match self {
            EngineError::NotAFile(path) => {
                let mut s = "--sfizz-render path does not exist or is not a file: ".to_string();
                s.append(path.as_str());
                s
            },
            EngineError::NotFound => {
                "could not find `sfizz_render` on PATH.\nInstall the sfizz offline renderer (build sfizz with -DSFIZZ_RENDER=ON, or grab a\nprebuilt from https://github.com/sfztools/sfizz/releases) and either put it on PATH\nor pass its location with --sfizz-render <PATH>.".to_string()
            },
        }
    }
}

/// Which of the flags is the first one set, from flag `i` on.
pub open spec fn first_set(flags: Seq<bool>, i: nat) -> Option<nat>
    decreases flags.len() - i,
{
    if i >= flags.len() {
        None
    } else if flags[i as int] {
        Some(i)
    } else {
        first_set(flags, i + 1)
    }
}

/// The first of the flags that is set.
pub fn first_found(flags: &[bool]) -> (r: Option<usize>)
    ensures
        match r {
            Some(i) => first_set(flags@, 0) == Some(i as nat) && i < flags.len() && flags[i as int]
                && forall|k: int| 0 <= k < i ==> !(#[trigger] flags[k]),
            None => first_set(flags@, 0) is None && forall|k: int|
                0 <= k < flags.len() ==> !(#[trigger] flags[k]),
        },
{
    let mut i: usize = 0;
    while i < flags.len()
        invariant
            i <= flags.len(),
            first_set(flags@, 0) == first_set(flags@, i as nat),
            forall|k: int| 0 <= k < i ==> !(#[trigger] flags[k]),
        decreases flags.len() - i,
    {
        if flags[i] {
            return Some(i);
        }
        i += 1;
    }
    None
}

/// The engine's binary in a directory of the search path.
pub open spec fn candidate_text(dir: Seq<char>) -> Seq<char> {
    path_join(dir, "sfizz_render"@)
}

/// The binaries that the engine could be, one for each directory of the search
/// path.
pub fn engine_candidates(dirs: &[String]) -> (r: Vec<String>)
    ensures
        texts(r@) == texts(dirs@).map_values(|d: Seq<char>| candidate_text(d)),
        r.len() == dirs.len(),
{
    let ghost whole = texts(dirs@).map_values(|d: Seq<char>| candidate_text(d));
    let mut out: Vec<String> = Vec::new();
    let mut i: usize = 0;
    while i < dirs.len()
        invariant
            i <= dirs.len(),
            out.len() == i,
            whole == texts(dirs@).map_values(|d: Seq<char>| candidate_text(d)),
            texts(out@) =~= whole.take(i as int),
        decreases dirs.len() - i,
    {
        let ghost before = texts(out@);
        let path = join_path(dirs[i].as_str(), "sfizz_render");
        assert(whole[i as int] == path@);
        out.push(path);
        assert(texts(out@) =~= before.push(path@));
        i += 1;
    }
    assert(whole.take(i as int) =~= whole);
    out
}

/// Locate the `sfizz_render` binary: the explicit path if one is given and names
/// a file, otherwise the first of the candidates on the search path that is a file.
/// `are_files[i]` tells whether candidate `i` is one.
pub fn locate_engine(
    explicit: &Option<String>,
    is_file: bool,
    candidates: &[String],
    are_files: &[bool],
) -> (r: Result<String, EngineError>)
    requires
        candidates.len() == are_files.len(),
    ensures
        match *explicit {
            Some(p) => if is_file {
                r == Ok::<String, EngineError>(p)
            } else {
                r == Err::<String, EngineError>(EngineError::NotAFile(p))
            },
            None => match first_set(are_files@, 0) {
                Some(i) => i < candidates@.len() && r == Ok::<String, EngineError>(
                    candidates@[i as int],
                ),
                None => r == Err::<String, EngineError>(EngineError::NotFound),
            },
        },
{
    match explicit {
        Some(p) => {
            if is_file {
                Ok(p.clone())
            } else {
                Err(EngineError::NotAFile(p.clone()))
            }
        },
        None => match first_found(are_files) {
            Some(i) => Ok(candidates[i].clone()),
            None => Err(EngineError::NotFound),
        },
    }
}

/// What the engine is asked to do: render a MIDI file against an instrument into
/// a WAV that ends with the track.
pub open spec fn engine_request(sfz: Seq<char>, midi: Seq<char>, wav: Seq<char>, sample_rate: u32) -> Seq<
    Seq<char>,
> {
    seq![
        "--sfz"@,
        sfz,
        "--midi"@,
        midi,
        "--wav"@,
        wav,
        "--samplerate"@,
        decimal(sample_rate as nat),
        "--use-eot"@,
    ]
}

/// The arguments of one engine run.
pub fn engine_arguments(sfz: &str, midi: &str, wav: &str, sample_rate: u32) -> (r: Vec<String>)
    ensures
        texts(r@) == engine_request(sfz@, midi@, wav@, sample_rate),
{
    let mut out: Vec<String> = Vec::new();
    out.push("--sfz".to_string());
    out.push(sfz.to_string());
    out.push("--midi".to_string());
    out.push(midi.to_string());
    out.push("--wav".to_string());
    out.push(wav.to_string());
    out.push("--samplerate".to_string());
    out.push(decimal_text(sample_rate as u64));
    out.push("--use-eot".to_string());
    assert(texts(out@) =~= engine_request(sfz@, midi@, wav@, sample_rate));
    out
}

/// The name of a temporary file of one engine run.
pub open spec fn temp_text(process: u32, run: u64, extension: Seq<char>) -> Seq<char> {
    "sfizz-"@ + decimal(process as nat) + "-"@ + decimal(run as nat) + extension
}

/// The names of the temporary MIDI file and WAV of one engine run: no two runs of
/// one process share them.
pub fn temp_names(process: u32, run: u64) -> (r: (String, String))
    ensures
        r.0@ == temp_text(process, run, ".mid"@),
        r.1@ == temp_text(process, run, ".wav"@),
{
    let mut base = "sfizz-".to_string();
    base.append(decimal_text(process as u64).as_str());
    base.append("-");
    base.append(decimal_text(run).as_str());
    let mut midi = base.clone();
    midi.append(".mid");
    base.append(".wav");
    (midi, base)
}

/// No two engine runs of one process share a temporary file.
pub proof fn lemma_temp_names_differ(process: u32, a: u64, b: u64, extension: Seq<char>)
    requires
        temp_text(process, a, extension) == temp_text(process, b, extension),
    ensures
        a == b,
{
    let head = "sfizz-"@ + decimal(process as nat) + "-"@;
    let x = decimal(a as nat);
    let y = decimal(b as nat);
    let s = temp_text(process, a, extension);
    let t = temp_text(process, b, extension);
    assert(s =~= head + x + extension);
    assert(t =~= head + y + extension);
    assert(s.len() == head.len() + x.len() + extension.len());
    assert(t.len() == head.len() + y.len() + extension.len());
    assert(x =~= s.subrange(head.len() as int, (head.len() + x.len()) as int));
    assert(y =~= t.subrange(head.len() as int, (head.len() + y.len()) as int));
    lemma_decimal_is_unique(a as nat, b as nat);
}

} // verus!
