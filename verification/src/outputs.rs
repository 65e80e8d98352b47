//! The files that a recorded chain is written to, and what is said of them.
use crate::arith::shown;
use crate::config::{
    name_of, name_text, slice_hex, slice_text, AudioConfig, FormatConfig, M8Config, MidiConfig,
    RenderConfig, RenderParams,
};
use crate::cli::{RenderArgs, RenderSfzArgs, M8_SAMPLE_RATE};
use crate::layout::{is_rendered, lemma_bounds_keep_sound, rendered_bounds, sound_bounds};
use crate::output::{
    dir_text, folder_text, output_wav_path, render_dir, sidecar_paths, stem_text, wav_path_text,
};
use crate::paths::path_join;
use crate::picking::{lemma_bounds_span_sound, spans_sound};
use crate::render::Job;
use crate::session::ChainLog;
use crate::text::texts;
use vstd::prelude::*;

verus! {

/// A file that holds a part of a chain.
#[derive(Debug)]
pub struct Cut {
    /// Where it is written.
    pub path: String,
    /// The first sample that it holds.
    pub first: usize,
    /// The sample behind the last one that it holds.
    pub end: usize,
}

/// Where the files of a chain are written.
#[derive(Debug)]
pub struct Outputs {
    /// The folder of the render.
    pub folder: String,
    /// The whole chain.
    pub wav: String,
    /// The chain without silent slots at its ends, on request and where a slot
    /// holds sound.
    pub unpadded: Option<Cut>,
    /// The CSV map.
    pub csv: String,
    /// Whether the CSV map is written.
    pub write_csv: bool,
    /// The JSON config.
    pub json: String,
    /// Whether the JSON config is written.
    pub write_json: bool,
}

/// What is written besides the chain itself.
#[derive(Copy, Clone, Debug, PartialEq, Eq, Structural)]
pub struct Extras {
    /// Also the chain without silent slots at its ends.
    pub unpadded: bool,
    /// Also the CSV map.
    pub csv: bool,
    /// Also the JSON config.
    pub json: bool,
}

impl Outputs {
    /// Whether these are the outputs of a chain with these statuses.
    pub open spec fn belong_to(
        &self,
        out: Seq<char>,
        name: Seq<char>,
        note_length: Seq<char>,
        statuses: Seq<Seq<char>>,
        slot_samples: nat,
        extras: Extras,
    ) -> bool {
        let wav = wav_path_text(out, name, statuses.len(), note_length, false);
        &&& self.folder@ == folder_text(out)
        &&& self.wav@ == wav
        &&& self.csv@ == path_join(dir_text(wav), stem_text(wav) + "_map.csv"@)
        &&& self.json@ == path_join(dir_text(wav), stem_text(wav) + "_render.json"@)
        &&& self.write_csv == extras.csv
        &&& self.write_json == extras.json
        &&& match self.unpadded {
            None => !extras.unpadded || sound_bounds(statuses) is None,
            Some(cut) => extras.unpadded && match sound_bounds(statuses) {
                Some((first, last)) => {
                    &&& cut.path@ == wav_path_text(
                        out,
                        name,
                        (last - first + 1) as nat,
                        note_length,
                        true,
                    )
                    &&& cut.first == first * slot_samples
                    &&& cut.end == (last + 1) * slot_samples
                },
                None => false,
            },
        }
    }

    /// The paths that are written, in order.
    pub open spec fn written_paths(&self) -> Seq<Seq<char>> {
        let cut = match self.unpadded {
            Some(c) => seq![c.path@],
            None => Seq::empty(),
        };
        let csv = if self.write_csv {
            seq![self.csv@]
        } else {
            Seq::empty()
        };
        let json = if self.write_json {
            seq![self.json@]
        } else {
            Seq::empty()
        };
        seq![self.wav@] + cut + csv + json
    }

    /// The paths that are written, in order.
    pub fn written(&self) -> (r: Vec<String>)
        ensures
            texts(r@) == self.written_paths(),
    {
        let mut out: Vec<String> = Vec::new();
        out.push(self.wav.clone());
        if let Some(c) = &self.unpadded {
            out.push(c.path.clone());
        }
        if self.write_csv {
            out.push(self.csv.clone());
        }
        if self.write_json {
            out.push(self.json.clone());
        }
        assert(texts(out@) =~= self.written_paths());
        out
    }
}

/// Where the files of a chain go: the padded chain with every slot, on request
/// the one without leading and trailing silent slots, and the sidecars.
pub fn plan_outputs(
    out: &str,
    name: &str,
    note_length: &str,
    statuses: &Vec<String>,
    slot_samples: usize,
    extras: Extras,
) -> (r: Outputs)
    requires
        statuses.len() * slot_samples <= usize::MAX,
    ensures
        r.belong_to(out@, name@, note_length@, texts(statuses@), slot_samples as nat, extras),
        r.unpadded matches Some(cut) ==> cut.first <= cut.end <= statuses.len() * slot_samples,
        r.unpadded matches Some(cut) ==> spans_sound(
            texts(statuses@),
            slot_samples as nat,
            cut.first as int,
            cut.end as int,
        ),
        r.unpadded is Some <==> extras.unpadded && exists|i: int|
            0 <= i < statuses.len() && #[trigger] texts(statuses@)[i] == "rendered"@,
{
    let folder = render_dir(out);
    let wav = output_wav_path(out, name, statuses.len(), note_length, false);
    let (csv, json) = sidecar_paths(wav.as_str());
    let bounds = rendered_bounds(statuses.as_slice());
    proof {
        lemma_bounds_span_sound(texts(statuses@), slot_samples as nat);
    }
    let unpadded = match bounds {
        Some((first, last)) => {
            if extras.unpadded {
                proof {
                    let n = slot_samples as int;
                    assert(first * n <= (last + 1) * n && (last + 1) * n <= statuses.len() * n)
                        by (nonlinear_arith)
                        requires
                            first <= last < statuses.len(),
                            n >= 0,
                    ;
                }
                Some(
                    Cut {
                        path: output_wav_path(out, name, last - first + 1, note_length, true),
                        first: first * slot_samples,
                        end: (last + 1) * slot_samples,
                    },
                )
            } else {
                None
            }
        },
        None => None,
    };
    Outputs {
        folder,
        wav,
        unpadded,
        csv,
        write_csv: extras.csv,
        json,
        write_json: extras.json,
    }
}

/// The filename tag of a job, `notes` for the plain chain.
pub open spec fn job_file_name(tag: Option<String>) -> Seq<char> {
    match tag {
        Some(t) => t@,
        None => "notes"@,
    }
}

/// The outputs of a live job: chord files get their CSV legend unasked.
pub fn job_outputs(args: &RenderArgs, job: &Job, statuses: &Vec<String>, slot_samples: usize) -> (r: Outputs)
    requires
        statuses.len() == job.slot_map.len(),
        statuses.len() * slot_samples <= usize::MAX,
    ensures
        r.belong_to(
            args.output@,
            job_file_name(job.tag),
            args.note_length.text@,
            texts(statuses@),
            slot_samples as nat,
            Extras {
                unpadded: args.unpadded,
                csv: args.csv || job.csv_default,
                json: args.json,
            },
        ),
        r.unpadded matches Some(cut) ==> cut.first <= cut.end <= statuses.len() * slot_samples,
        r.unpadded matches Some(cut) ==> spans_sound(
            texts(statuses@),
            slot_samples as nat,
            cut.first as int,
            cut.end as int,
        ),
        r.unpadded is Some <==> args.unpadded && exists|i: int|
            0 <= i < statuses.len() && #[trigger] texts(statuses@)[i] == "rendered"@,
{
    let extras = Extras {
        unpadded: args.unpadded,
        csv: args.csv || job.csv_default,
        json: args.json,
    };
    let name: &str = match &job.tag {
        Some(t) => t.as_str(),
        None => "notes",
    };
    plan_outputs(
        args.output.as_str(),
        name,
        args.note_length.text.as_str(),
        statuses,
        slot_samples,
        extras,
    )
}

/// The outputs of an offline job.
pub fn sfz_job_outputs(
    args: &RenderSfzArgs,
    job: &crate::render_sfz::Job,
    statuses: &Vec<String>,
    slot_samples: usize,
) -> (r: Outputs)
    requires
        statuses.len() == job.slot_map.len(),
        statuses.len() * slot_samples <= usize::MAX,
    ensures
        r.belong_to(
            job.out_base@,
            job.name@,
            args.note_length.text@,
            texts(statuses@),
            slot_samples as nat,
            Extras { unpadded: args.unpadded, csv: args.csv, json: args.json },
        ),
        r.unpadded matches Some(cut) ==> cut.first <= cut.end <= statuses.len() * slot_samples,
        r.unpadded matches Some(cut) ==> spans_sound(
            texts(statuses@),
            slot_samples as nat,
            cut.first as int,
            cut.end as int,
        ),
        r.unpadded is Some <==> args.unpadded && exists|i: int|
            0 <= i < statuses.len() && #[trigger] texts(statuses@)[i] == "rendered"@,
{
    let extras = Extras { unpadded: args.unpadded, csv: args.csv, json: args.json };
    plan_outputs(
        job.out_base.as_str(),
        job.name.as_str(),
        args.note_length.text.as_str(),
        statuses,
        slot_samples,
        extras,
    )
}

/// The name of a channel layout.
pub open spec fn layout_text(out_channels: u16) -> Seq<char> {
    if out_channels == 1 {
        "mono"@
    } else {
        "stereo"@
    }
}

/// The name of a channel layout.
pub fn layout_name(out_channels: u16) -> (r: &'static str)
    ensures
        r@ == layout_text(out_channels),
{
    if out_channels == 1 {
        "mono"
    } else {
        "stereo"
    }
}

/// The lines that sum up a written live job.
pub open spec fn summary_text(outputs: Outputs, slots: nat, layout: Seq<char>) -> Seq<Seq<char>> {
    let cut = match outputs.unpadded {
        Some(c) => seq!["  Unpadded : "@ + c.path@],
        None => Seq::empty(),
    };
    let csv = if outputs.write_csv {
        seq!["  CSV      : "@ + outputs.csv@]
    } else {
        Seq::empty()
    };
    let json = if outputs.write_json {
        seq!["  JSON     : "@ + outputs.json@]
    } else {
        Seq::empty()
    };
    seq![
        "  WAV      : "@ + outputs.wav@ + " ("@ + layout + ", SLICE="@ + slice_text(slots) + ")"@,
    ] + cut + csv + json
}

/// A label in front of a text.
fn labelled(label: &str, text: &str) -> (r: String)
    ensures
        r@ == label@ + text@,
{
    let mut s = label.to_string();
    s.append(text);
    s
}

/// The lines that sum up a written live job.
pub fn summary_lines(outputs: &Outputs, slots: usize, layout: &str) -> (r: Vec<String>)
    ensures
        texts(r@) == summary_text(*outputs, slots as nat, layout@),
{
    let mut out: Vec<String> = Vec::new();
    let mut first = "  WAV      : ".to_string();
    first.append(outputs.wav.as_str());
    first.append(" (");
    first.append(layout);
    first.append(", SLICE=");
    first.append(slice_hex(slots).as_str());
    first.append(")");
    out.push(first);
    if let Some(c) = &outputs.unpadded {
        out.push(labelled("  Unpadded : ", c.path.as_str()));
    }
    if outputs.write_csv {
        out.push(labelled("  CSV      : ", outputs.csv.as_str()));
    }
    if outputs.write_json {
        out.push(labelled("  JSON     : ", outputs.json.as_str()));
    }
    assert(texts(out@) =~= summary_text(*outputs, slots as nat, layout@));
    out
}

/// The line that sums up a written offline job.
pub open spec fn job_summary_text(
    label: Seq<char>,
    wav: Seq<char>,
    layout: Seq<char>,
    slot_length: Seq<char>,
    slots: nat,
) -> Seq<char> {
    label + " -> "@ + wav + " ("@ + layout + ", "@ + slot_length + "s slots, SLICE="@ + slice_text(
        slots,
    ) + ")"@
}

/// The line that sums up a written offline job.
pub fn job_summary(job: &crate::render_sfz::Job, wav: &str, out_channels: u16) -> (r: String)
    ensures
        r@ == job_summary_text(
            job.label@,
            wav@,
            layout_text(out_channels),
            shown(job.slot_length, 2),
            job.slot_map@.len(),
        ),
{
    let mut s = job.label.clone();
    s.append(" -> ");
    s.append(wav);
    s.append(" (");
    s.append(layout_name(out_channels));
    s.append(", ");
    s.append(job.slot_length.fixed(2).as_str());
    s.append("s slots, SLICE=");
    s.append(slice_hex(job.slot_map.len()).as_str());
    s.append(")");
    s
}

/// The config of a WAV from an offline render.
pub fn sfz_config(
    job: &crate::render_sfz::Job,
    args: &RenderSfzArgs,
    out_channels: u16,
    wav_path: &str,
    csv_path: &str,
) -> (r: RenderConfig)
    requires
        job.slot_map.len() <= u32::MAX,
    ensures
        r.mode@ == "sfz-render"@,
        r.output_wav@ == name_text(wav_path@),
        r.output_map@ == name_text(csv_path@),
        r.format == (FormatConfig {
            sample_rate: M8_SAMPLE_RATE,
            bit_depth: 16,
            channels: out_channels,
        }),
        r.midi.output@ == "sfizz_render"@,
        r.midi.channel == 1,
        r.midi.start_midi == args.start_midi,
        r.midi.end_midi == args.end_midi,
        r.midi.velocity == job.velocity,
        r.audio.input@ == name_text(job.sfz@),
        r.render.note_length_seconds == args.note_length.value,
        r.render.slot_length_seconds == job.slot_length,
        r.render.pre_roll_ms == 0,
        r.render.slice_count == job.slot_map@.len(),
        r.render.m8_slice_hex@ == slice_text(job.slot_map@.len()),
        match r.render.chord {
            Some(tag) => (job.is_chord || args.chord is Some) && tag@ == job.name@,
            None => !job.is_chord && args.chord is None,
        },
        r.m8.is_standard(slice_text(job.slot_map@.len())),
{
    let slices: usize = job.slot_map.len();
    let mut m8 = M8Config::standard();
    m8.slice = slice_hex(slices);
    let chord = if job.is_chord || args.chord.is_some() {
        Some(job.name.clone())
    } else {
        None
    };
    RenderConfig {
        mode: "sfz-render".to_string(),
        output_wav: name_of(wav_path),
        output_map: name_of(csv_path),
        format: FormatConfig { sample_rate: M8_SAMPLE_RATE, bit_depth: 16, channels: out_channels },
        midi: MidiConfig {
            output: "sfizz_render".to_string(),
            channel: 1,
            start_midi: args.start_midi,
            end_midi: args.end_midi,
            velocity: job.velocity,
        },
        audio: AudioConfig { input: name_of(job.sfz.as_str()) },
        render: RenderParams {
            note_length_seconds: args.note_length.value,
            slot_length_seconds: job.slot_length,
            pre_roll_ms: 0,
            slice_count: slices as u32,
            m8_slice_hex: slice_hex(slices),
            chord,
        },
        m8,
    }
}

/// A chain that was interrupted is cut within what was recorded of it: no slot
/// that was never reached lies in the kept range.
pub proof fn lemma_cut_is_recorded(done: Seq<Seq<char>>, slots: nat)
    requires
        slots <= usize::MAX,
    ensures
        match sound_bounds(ChainLog::padded(done, slots)) {
            Some((first, last)) => first <= last < done.len(),
            None => true,
        },
{
    let all = ChainLog::padded(done, slots);
    lemma_bounds_keep_sound(all);
    reveal_strlit("skipped");
    reveal_strlit("rendered");
    assert("skipped"@.len() != "rendered"@.len());
    if let Some((first, last)) = sound_bounds(all) {
        assert(is_rendered(all[last as int]));
    }
}

} // verus!
