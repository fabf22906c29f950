//! Processing of many images: output names, side-by-side comparisons and the
//! summary of a run.

use crate::blend_modes::{alpha_map_covers, box_index, cleaned_channel, in_box, remove_watermark};
use crate::ncc::{
    create_template_from_alpha_map, detect_watermark, detection_outcome, Fraction,
    NccConfig, NccResult, NccScore,
};
use crate::paths::{
    path_extension, path_file_stem, path_join, path_parent, path_with_file_name, spec_extension,
    spec_file_stem, spec_join, spec_parent, spec_with_file_name,
};
use crate::raster::{
    lemma_channel_index_bound, lemma_pixel_index_bound, spec_luma_of_rgba, GrayRaster, RgbaRaster,
};
use crate::watermark::Position;
use crate::watermark::sat_sub;
use vstd::prelude::*;
use vstd::string::StringExecFns;

verus! {

/// Settings of a batch run.
#[derive(Debug, Clone)]
pub struct BatchConfig {
    /// Where the cleaned images go; beside their inputs where `None`.
    pub output_dir: Option<String>,
    /// Also write a side-by-side comparison of each input and output.
    pub compare: bool,
    /// Report progress.
    pub verbose: bool,
    /// Process the images in parallel.
    pub parallel: bool,
}

impl Default for BatchConfig {
    /// No output directory, no comparisons, quiet, parallel.
    fn default() -> (config: BatchConfig)
        ensures
            config.output_dir is None,
            !config.compare,
            !config.verbose,
            config.parallel,
    {
        BatchConfig { output_dir: None, compare: false, verbose: false, parallel: true }
    }
}

/// What became of one input of a batch.
#[derive(Debug, Clone)]
pub struct ProcessResult {
    pub input: String,
    pub output: String,
    pub success: bool,
    pub watermark_found: bool,
    pub confidence: NccScore,
    pub duration_ms: u128,
}

/// The characters of an optional path part, or none.
pub open spec fn or_empty(part: Option<Seq<char>>) -> Seq<char> {
    match part {
        Some(p) => p,
        None => Seq::empty(),
    }
}

/// The file name of the cleaned image: `<stem>_clean.<extension>` of the input.
pub open spec fn clean_file_name(input: Seq<char>) -> Seq<char> {
    or_empty(spec_file_stem(input)) + "_clean."@ + or_empty(spec_extension(input))
}

/// The cleaned file name starts with the input's whole file stem (dots kept),
/// continues with `_clean.` and ends with the input's extension.
pub proof fn lemma_clean_name_parts(input: Seq<char>)
    ensures
        clean_file_name(input).subrange(0, or_empty(spec_file_stem(input)).len() as int)
            == or_empty(spec_file_stem(input)),
        clean_file_name(input).len() == or_empty(spec_file_stem(input)).len() + "_clean."@.len()
            + or_empty(spec_extension(input)).len(),
        clean_file_name(input).subrange(
            clean_file_name(input).len() - or_empty(spec_extension(input)).len(),
            clean_file_name(input).len() as int,
        ) == or_empty(spec_extension(input)),
{
    let stem = or_empty(spec_file_stem(input));
    let ext = or_empty(spec_extension(input));
    let name = clean_file_name(input);
    assert(name.subrange(0, stem.len() as int) =~= stem);
    assert(name.subrange(name.len() - ext.len(), name.len() as int) =~= ext);
}

/// The file name of the comparison image of an output: `<stem>_compare.png`.
pub open spec fn compare_file_name(output: Seq<char>) -> Seq<char> {
    or_empty(spec_file_stem(output)) + "_compare.png"@
}

/// An optional string, or the empty string.
fn string_or_empty(part: Option<String>) -> (s: String)
    ensures
        s@ == or_empty(
            match part {
                Some(p) => Some(p@),
                None => None,
            },
        ),
{
    match part {
        Some(p) => p,
        None => String::new(),
    }
}

/// `<stem>_clean.<extension>` of the input path.
fn clean_name_of(input: &str) -> (name: String)
    ensures
        name@ == clean_file_name(input@),
        name@ == or_empty(spec_file_stem(input@)) + "_clean."@ + or_empty(spec_extension(input@)),
{
    let mut name = string_or_empty(path_file_stem(input));
    name.append("_clean.");
    let ext = string_or_empty(path_extension(input));
    name.append(ext.as_str());
    name
}

/// `<stem>_compare.png` of the output path.
fn compare_name_of(output: &str) -> (name: String)
    ensures
        name@ == compare_file_name(output@),
        name@ == or_empty(spec_file_stem(output@)) + "_compare.png"@,
{
    let mut name = string_or_empty(path_file_stem(output));
    name.append("_compare.png");
    name
}

/// Where a batch writes the cleaned image of `input`: `<stem>_clean.<extension>`
/// in the output directory, or beside the input where there is none.
pub fn generate_output_path(input: &str, output_dir: &Option<String>) -> (output: String)
    ensures
        output@ == match output_dir {
            Some(dir) => spec_join(
                dir@,
                or_empty(spec_file_stem(input@)) + "_clean."@ + or_empty(spec_extension(input@)),
            ),
            None => spec_with_file_name(
                input@,
                or_empty(spec_file_stem(input@)) + "_clean."@ + or_empty(spec_extension(input@)),
            ),
        },
        output@ == match output_dir {
            Some(dir) => spec_join(dir@, clean_file_name(input@)),
            None => spec_with_file_name(input@, clean_file_name(input@)),
        },
{
    let name = clean_name_of(input);
    match output_dir {
        Some(dir) => path_join(dir.as_str(), name.as_str()),
        None => path_with_file_name(input, name.as_str()),
    }
}

/// Where a single-image run writes the cleaned image: inside the given output
/// when it is a directory, at the given output otherwise, and beside the input
/// as `<stem>_clean.<extension>` when no output is given.
pub fn single_output_path(input: &str, output: &Option<String>, output_is_dir: bool) -> (path:
    String)
    ensures
        path@ == match output {
            Some(out) => if output_is_dir {
                spec_join(
                    out@,
                    or_empty(spec_file_stem(input@)) + "_clean."@ + or_empty(
                        spec_extension(input@),
                    ),
                )
            } else {
                out@
            },
            None => spec_with_file_name(
                input@,
                or_empty(spec_file_stem(input@)) + "_clean."@ + or_empty(spec_extension(input@)),
            ),
        },
        path@ == match output {
            Some(out) => if output_is_dir {
                spec_join(out@, clean_file_name(input@))
            } else {
                out@
            },
            None => spec_with_file_name(input@, clean_file_name(input@)),
        },
{
    match output {
        Some(out) => {
            if output_is_dir {
                let name = clean_name_of(input);
                path_join(out.as_str(), name.as_str())
            } else {
                out.clone()
            }
        },
        None => {
            let name = clean_name_of(input);
            path_with_file_name(input, name.as_str())
        },
    }
}

/// Where a batch writes the comparison image of an output:
/// `<stem>_compare.png` beside it.
pub fn comparison_path_beside(output: &str) -> (path: String)
    ensures
        path@ == spec_with_file_name(output@, compare_file_name(output@)),
{
    let name = compare_name_of(output);
    path_with_file_name(output, name.as_str())
}

/// Where a single-image run writes the comparison image of an output:
/// `<stem>_compare.png` in the output's parent directory, or in `.` where the
/// output has no parent.
pub fn comparison_path_in_parent(output: &str) -> (path: String)
    ensures
        path@ == spec_join(
            match spec_parent(output@) {
                Some(p) => p,
                None => "."@,
            },
            compare_file_name(output@),
        ),
{
    let name = compare_name_of(output);
    match path_parent(output) {
        Some(parent) => path_join(parent.as_str(), name.as_str()),
        None => path_join(".", name.as_str()),
    }
}


/// How a run goes, by its inputs.
#[derive(Debug, Clone, Copy, PartialEq, Eq, Structural)]
pub enum RunMode {
    /// No input was given: the run fails.
    MissingInput,
    /// One image, written where the user asks.
    Single,
    /// Several images, each written beside its input or into a directory.
    Batch,
}

/// A run fails without inputs, is a batch with more than one input or when a
/// batch is asked for, and handles one image otherwise.
pub fn choose_run_mode(input_count: usize, batch: bool) -> (mode: RunMode)
    ensures
        input_count == 0 ==> mode == RunMode::MissingInput,
        input_count > 0 && (input_count > 1 || batch) ==> mode == RunMode::Batch,
        input_count == 1 && !batch ==> mode == RunMode::Single,
{
    if input_count == 0 {
        RunMode::MissingInput
    } else if input_count > 1 || batch {
        RunMode::Batch
    } else {
        RunMode::Single
    }
}

/// First column of the divider between the two halves of a comparison.
pub open spec fn divider_start(width: int) -> int {
    sat_sub(width, 2)
}

/// One past the last column of the divider.
pub open spec fn divider_end(width: int) -> int {
    if width + 2 < 2 * width {
        width + 2
    } else {
        2 * width
    }
}

/// Channel `c` of the divider's colour, opaque red.
pub open spec fn divider_channel(c: int) -> int {
    if c == 1 || c == 2 {
        0
    } else {
        255
    }
}

/// Channel `c` of pixel `(x, y)` of the comparison of `left` and `right`: the left
/// image, then the right image, with a red divider four pixels wide (less at
/// the edges) around the seam.
pub open spec fn comparison_channel(
    left: RgbaRaster,
    right: RgbaRaster,
    x: int,
    y: int,
    c: int,
) -> int {
    if divider_start(left.width as int) <= x < divider_end(left.width as int) {
        divider_channel(c)
    } else if x < left.width {
        left.channel(x, y, c) as int
    } else {
        right.channel(x - left.width, y, c) as int
    }
}

/// The comparison shows the left image in place left of the divider, the right
/// image shifted by the left one's width right of it, and opaque red
/// (255, 0, 0, 255) on the divider, which spans two columns either side of the seam.
pub proof fn lemma_comparison_layout(left: RgbaRaster, right: RgbaRaster, x: int, y: int, c: int)
    requires
        0 <= x < 2 * left.width,
        0 <= c < 4,
    ensures
        x + 2 < left.width ==> comparison_channel(left, right, x, y, c) == left.channel(x, y, c),
        left.width + 2 <= x ==> comparison_channel(left, right, x, y, c) == right.channel(
            x - left.width,
            y,
            c,
        ),
        left.width - 2 <= x < left.width + 2 ==> comparison_channel(left, right, x, y, c) == (if c
            == 1 || c == 2 {
            0int
        } else {
            255int
        }),
{
}

/// Puts two images side by side, with a red divider between them. The result has
/// twice the left image's width and its height; a larger right image is cut to
/// the left one's size.
pub fn compose_comparison(left: &RgbaRaster, right: &RgbaRaster) -> (combined: RgbaRaster)
    requires
        left.wf(),
        right.wf(),
        right.width >= left.width,
        right.height >= left.height,
        left.width * 2 <= u32::MAX,
        left.width * 2 * left.height * 4 <= usize::MAX,
    ensures
        combined.wf(),
        combined.width == left.width * 2,
        combined.height == left.height,
        forall|x: int, y: int, c: int|
            0 <= x < combined.width && 0 <= y < combined.height && 0 <= c < 4
                ==> #[trigger] combined.channel(x, y, c) == comparison_channel(
                *left,
                *right,
                x,
                y,
                c,
            ),
        forall|x: int, y: int, c: int|
            0 <= x && x + 2 < left.width && 0 <= y < left.height && 0 <= c < 4
                ==> #[trigger] combined.channel(x, y, c) == left.channel(x, y, c),
        forall|x: int, y: int, c: int|
            left.width + 2 <= x < 2 * left.width && 0 <= y < left.height && 0 <= c < 4
                ==> #[trigger] combined.channel(x, y, c) == right.channel(x - left.width, y, c),
        forall|x: int, y: int|
            0 <= x < 2 * left.width && left.width - 2 <= x < left.width + 2 && 0 <= y
                < left.height ==> {
                &&& #[trigger] combined.channel(x, y, 0) == 255
                &&& combined.channel(x, y, 1) == 0
                &&& combined.channel(x, y, 2) == 0
                &&& combined.channel(x, y, 3) == 255
            },
{
    let width = left.width;
    let height = left.height;
    let full = width * 2;
    let mut out = RgbaRaster::new(full, height);
    proof {
        assert forall|qx: int, qy: int, qc: int|
            0 <= qx < full && 0 <= qy < height && 0 <= qc < 4 implies #[trigger] out.channel(
                qx,
                qy,
                qc,
            ) == 0 by {
            lemma_channel_index_bound(full as int, height as int, qx, qy, qc);
        }
    }
    let start = width.saturating_sub(2);
    let end = if width + 2 < full {
        width + 2
    } else {
        full
    };
    for y in 0..height
        invariant
            out.wf(),
            out.width == full,
            out.height == height,
            full == width * 2,
            width == left.width,
            height == left.height,
            left.wf(),
            right.wf(),
            right.width >= left.width,
            right.height >= left.height,
            start == divider_start(width as int),
            end == divider_end(width as int),
            forall|qx: int, qy: int, qc: int|
                0 <= qx < full && 0 <= qy < height && 0 <= qc < 4 ==> #[trigger] out.channel(
                    qx,
                    qy,
                    qc,
                ) == if qy < y {
                    comparison_channel(*left, *right, qx, qy, qc)
                } else {
                    0
                },
    {
        for x in 0..full
            invariant
                out.wf(),
                out.width == full,
                out.height == height,
                full == width * 2,
                width == left.width,
                height == left.height,
                left.wf(),
                right.wf(),
                right.width >= left.width,
                right.height >= left.height,
                start == divider_start(width as int),
                end == divider_end(width as int),
                y < height,
                forall|qx: int, qy: int, qc: int|
                    0 <= qx < full && 0 <= qy < height && 0 <= qc < 4 ==> #[trigger] out.channel(
                        qx,
                        qy,
                        qc,
                    ) == if qy < y || (qy == y && qx < x) {
                        comparison_channel(*left, *right, qx, qy, qc)
                    } else {
                        0
                    },
        {
            for c in 0..4u32
                invariant
                    out.wf(),
                    out.width == full,
                    out.height == height,
                    full == width * 2,
                    width == left.width,
                    height == left.height,
                    left.wf(),
                    right.wf(),
                    right.width >= left.width,
                    right.height >= left.height,
                    start == divider_start(width as int),
                    end == divider_end(width as int),
                    y < height,
                    x < full,
                    forall|qx: int, qy: int, qc: int|
                        0 <= qx < full && 0 <= qy < height && 0 <= qc < 4
                            ==> #[trigger] out.channel(qx, qy, qc) == if qy < y || (qy == y && qx
                            < x) || (qy == y && qx == x && qc < c) {
                            comparison_channel(*left, *right, qx, qy, qc)
                        } else {
                            0
                        },
            {
                let v: u8 = if start <= x && x < end {
                    if c == 1 || c == 2 {
                        0
                    } else {
                        255
                    }
                } else if x < width {
                    left.get_channel(x, y, c)
                } else {
                    right.get_channel(x - width, y, c)
                };
                out.set_channel(x, y, c, v);
            }
        }
    }
    out
}

/// Counts and totals over the results of a batch.
#[derive(Debug, Clone, Copy, PartialEq, Eq, Structural)]
pub struct BatchSummary {
    pub total: usize,
    pub successful: usize,
    pub failed: usize,
    pub watermarks_found: usize,
    pub total_duration_ms: u128,
}

/// How many results are successes.
pub open spec fn count_successful(results: Seq<ProcessResult>) -> nat
    decreases results.len(),
{
    if results.len() == 0 {
        0
    } else {
        count_successful(results.drop_last()) + if results.last().success {
            1nat
        } else {
            0nat
        }
    }
}

/// How many results found the watermark.
pub open spec fn count_watermarks_found(results: Seq<ProcessResult>) -> nat
    decreases results.len(),
{
    if results.len() == 0 {
        0
    } else {
        count_watermarks_found(results.drop_last()) + if results.last().watermark_found {
            1nat
        } else {
            0nat
        }
    }
}

/// The time of all results together.
pub open spec fn total_duration(results: Seq<ProcessResult>) -> nat
    decreases results.len(),
{
    if results.len() == 0 {
        0
    } else {
        total_duration(results.drop_last()) + results.last().duration_ms as nat
    }
}

/// The counts go result by result: none for no results, and one more result adds
/// one to a count exactly when it has the counted property; its time adds to the
/// total.
pub proof fn lemma_summary_counts_step(results: Seq<ProcessResult>, r: ProcessResult)
    ensures
        count_successful(Seq::<ProcessResult>::empty()) == 0,
        count_watermarks_found(Seq::<ProcessResult>::empty()) == 0,
        total_duration(Seq::<ProcessResult>::empty()) == 0,
        count_successful(results.push(r)) == count_successful(results) + if r.success {
            1int
        } else {
            0int
        },
        count_watermarks_found(results.push(r)) == count_watermarks_found(results) + if r.watermark_found {
            1int
        } else {
            0int
        },
        total_duration(results.push(r)) == total_duration(results) + r.duration_ms,
{
    assert(results.push(r).drop_last() =~= results);
}

/// The counts are the sizes of the filtered results: the successes and the
/// results that found the watermark.
pub proof fn lemma_summary_counts_filter(results: Seq<ProcessResult>)
    ensures
        count_successful(results) == results.filter(|r: ProcessResult| r.success).len(),
        count_watermarks_found(results) == results.filter(|r: ProcessResult| r.watermark_found).len(),
        count_successful(results) <= results.len(),
        count_watermarks_found(results) <= results.len(),
    decreases results.len(),
{
    reveal_with_fuel(Seq::filter, 1);
    if results.len() > 0 {
        lemma_summary_counts_filter(results.drop_last());
    }
}

/// The time of the first results never exceeds that of all of them.
pub proof fn lemma_total_duration_prefix(results: Seq<ProcessResult>, i: int)
    requires
        0 <= i <= results.len(),
    ensures
        total_duration(results.take(i)) <= total_duration(results),
    decreases results.len() - i,
{
    if i < results.len() {
        lemma_total_duration_prefix(results.drop_last(), i);
        assert(results.drop_last().take(i) =~= results.take(i));
    } else {
        assert(results.take(i) =~= results);
    }
}

/// Counts how many results succeeded, failed and found the watermark, and adds
/// up their times.
pub fn summarize_results(results: &[ProcessResult]) -> (summary: BatchSummary)
    requires
        total_duration(results@) <= u128::MAX,
    ensures
        summary.total == results.len(),
        summary.successful == count_successful(results@),
        summary.failed == results.len() - count_successful(results@),
        summary.watermarks_found == count_watermarks_found(results@),
        summary.total_duration_ms == total_duration(results@),
{
    let n = results.len();
    let mut successful: usize = 0;
    let mut found: usize = 0;
    let mut duration: u128 = 0;
    proof {
        assert(results@.take(0) =~= Seq::<ProcessResult>::empty());
    }
    for i in 0..n
        invariant
            n == results.len(),
            total_duration(results@) <= u128::MAX,
            successful == count_successful(results@.take(i as int)),
            found == count_watermarks_found(results@.take(i as int)),
            duration == total_duration(results@.take(i as int)),
            successful <= i,
            found <= i,
    {
        proof {
            let t = results@.take(i + 1);
            assert(t.drop_last() =~= results@.take(i as int));
            assert(t.last() == results@[i as int]);
            lemma_total_duration_prefix(results@, i + 1);
        }
        if results[i].success {
            successful = successful + 1;
        }
        if results[i].watermark_found {
            found = found + 1;
        }
        duration = duration + results[i].duration_ms;
    }
    proof {
        assert(results@.take(n as int) =~= results@);
    }
    BatchSummary {
        total: n,
        successful,
        failed: n - successful,
        watermarks_found: found,
        total_duration_ms: duration,
    }
}

/// The search that `process_image` reports: the template made of the alpha map,
/// searched for in the grayscale image with the default threshold of 0.7.
pub open spec fn reports_search(
    img: RgbaRaster,
    alpha_map: Seq<u8>,
    size: u32,
    result: NccResult,
) -> bool {
    exists|gray: GrayRaster, template: GrayRaster|
        {
            &&& gray.wf()
            &&& template.wf()
            &&& gray.width == img.width
            &&& gray.height == img.height
            &&& gray.data@ == spec_luma_of_rgba(img.width, img.height, img.data@)
            &&& template.width == size
            &&& template.height == size
            &&& template.data@ == alpha_map.take(size * size)
            &&& #[trigger] detection_outcome(
                gray,
                template,
                Fraction { numerator: 7, denominator: 10 },
                result,
            )
        }
}

/// Checks one image for the watermark and removes it: the template made of the
/// alpha map is searched for in the grayscale image, then the logo of side
/// `size` at `position` is removed by reverse alpha blending.
pub fn process_image(img: &mut RgbaRaster, alpha_map: &[u8], size: u32, position: &Position) -> (report:
    NccResult)
    requires
        old(img).wf(),
        size * size <= u32::MAX,
        size * size <= alpha_map.len(),
        position.width == size,
        position.height == size,
        size > 0 ==> {
            &&& position.x + size - 1 <= u32::MAX
            &&& position.y + size - 1 <= u32::MAX
        },
        size <= old(img).width && size <= old(img).height ==> {
            &&& old(img).width - size < u32::MAX
            &&& old(img).height - size < u32::MAX
        },
    ensures
        reports_search(*old(img), alpha_map@, size, report),
        final(img).width == old(img).width,
        final(img).height == old(img).height,
        final(img).wf(),
        forall|px: int, py: int, c: int|
            0 <= px < old(img).width && 0 <= py < old(img).height && 0 <= c < 4
                ==> #[trigger] final(img).channel(px, py, c) == cleaned_channel(
                *old(img),
                alpha_map@,
                *position,
                px,
                py,
                c,
            ),
{
    let template = create_template_from_alpha_map(alpha_map, size, size);
    let gray = img.to_luma8();
    let config = NccConfig::default();
    let report = detect_watermark(&gray, &template, &config);
    proof {
        assert(reports_search(*img, alpha_map@, size, report)) by {
            assert(detection_outcome(gray, template, config.threshold, report));
        }
        assert forall|px: int, py: int|
            0 <= px < img.width && 0 <= py < img.height && in_box(*position, px, py) implies 0
                <= #[trigger] box_index(*position, px, py) < alpha_map@.len() && box_index(
                *position,
                px,
                py,
            ) <= u32::MAX by {
            lemma_pixel_index_bound(
                size as int,
                size as int,
                px - position.x,
                py - position.y,
            );
        }
    }
    remove_watermark(img, alpha_map, position);
    report
}
} // verus!
