//! What the window shows and does, said of what is drawn, chosen and clicked.
use std::collections::hash_map::DefaultHasher;
use vstd::prelude::*;
use vstd::std_specs::hash::DefaultHasherAdditionalSpecFns;

use crate::binning_laws::{
    law_bins_hold_their_steps, law_bins_reach_the_last_point, law_update_counts_new_points,
    law_update_runs_through_new_values,
};
use crate::board::{
    export_name, flattened, grouped, kept_in_range, lemma_tags_in, sectioned, tags_in, Board,
    UiEffect, UiEvent, MAX_INTERVAL, MIN_INTERVAL,
};
use crate::cache::texts;
use crate::color::{color_of, fed, name_hash, Channel};
use crate::data::{
    bins_needed, lemma_bin_nonneg, lemma_points_layout, Bins, ControlMsg, Kernel, Moments,
    RawSeries, ScalarPoint, Series,
};
use crate::export::covers;
use crate::names::NameMap;
use crate::plot::{drawable, drawn, item_views, plotted, ItemView, PlotItem, RunPlot};
use crate::text::section_name;

verus! {

/// Of a binned series that has bins, the band and then the line are drawn: bin by bin at
/// the centre, with the lower edge below, the upper edge above, and the mean.
pub proof fn law_bands_and_lines_show_each_bin(run: Seq<char>, bins: Bins, i: int)
    requires
        bins.wf(),
        0 <= i < bins.count.len(),
    ensures
        ({
            let items = drawn(run, Series::Binned(bins));
            &&& items.len() == 2
            &&& items[0] is Band
            &&& items[0]->Band_name == run + seq!['_', 'a', 'r', 'e', 'a']
            &&& items[0]->xs.len() == bins.count.len()
            &&& items[0]->lowers.len() == bins.count.len()
            &&& items[0]->uppers.len() == bins.count.len()
            &&& items[0]->xs[i] == bins.x[i]
            &&& items[0]->lowers[i] == bins.lower[i]
            &&& items[0]->uppers[i] == bins.upper[i]
            &&& items[1] is Line
            &&& items[1]->Line_name == run
            &&& items[1]->means.len() == bins.count.len()
            &&& items[1]->means[i].0 == bins.line[i].0
            &&& items[1]->means[i].1 == bins.line[i].1
        }),
{
    reveal_strlit("_area");
    assert("_area"@ =~= seq!['_', 'a', 'r', 'e', 'a']);
}

/// Of a series that is shown point by point every point is drawn, in order and as it is, on
/// a line that is marked as one of an evaluation. Of an empty series nothing is drawn.
pub proof fn law_single_points_are_drawn(run: Seq<char>, raw: RawSeries, bins: Bins, i: int)
    ensures
        raw.coords.len() == 0 ==> drawn(run, Series::Raw(raw)).len() == 0,
        bins.wf() && bins.count.len() == 0 ==> drawn(run, Series::Binned(bins)).len() == 0,
        0 <= i < raw.coords.len() ==> {
            let items = drawn(run, Series::Raw(raw));
            &&& items.len() == 1
            &&& items[0] is Dashed
            &&& items[0]->Dashed_name == run + seq![' ', '(', 'e', 'v', 'a', 'l', ')']
            &&& items[0]->points.len() == raw.coords.len()
            &&& items[0]->points[i].0 == raw.coords[i].0
            &&& items[0]->points[i].1 == raw.coords[i].1
        },
{
    reveal_strlit(" (eval)");
    assert(" (eval)"@ =~= seq![' ', '(', 'e', 'v', 'a', 'l', ')']);
}

/// Of a log that is taken in at once, each bin with points is drawn at its centre, with the
/// mean and the band that the moments of its own values give: those of the points whose
/// steps lie in the bin, one after the other, starting from zero.
pub proof fn law_plots_show_mean_and_deviation(
    run: Seq<char>,
    g: Kernel,
    points: Seq<(u32, u32)>,
    width: u32,
    b: int,
    mine: Seq<(u32, u32)>,
    trace: Seq<Moments>,
)
    requires
        Bins::empty().admits(points, width),
        points.len() > 0,
        0 <= b,
        b * width <= points.last().0,
        mine == points.filter(|p: (u32, u32)| b * width <= p.0 < (b + 1) * width),
        mine.len() > 0,
        trace.len() == mine.len() + 1,
        trace[0].mean == 0,
        trace[0].m2 == 0,
        forall|i: int|
            0 <= i < mine.len() ==> #[trigger] trace[i + 1] == g(
                trace[i].mean,
                trace[i].m2,
                (i + 1) as u32,
                mine[i].1,
            ),
    ensures
        ({
            let items = drawn(run, Series::Binned(Bins::empty().updated(g, points, width)));
            let end = trace[mine.len() as int];
            &&& items.len() == 2
            &&& items[0] is Band
            &&& 0 <= b < items[0]->xs.len()
            &&& items[0]->xs[b] == (2 * b + 1) * width
            &&& items[0]->lowers[b] == end.lower
            &&& items[0]->uppers[b] == end.upper
            &&& items[1] is Line
            &&& items[1]->means[b].0 == (2 * b + 1) * width
            &&& items[1]->means[b].1 == end.mean
        }),
{
    let none = Bins::empty();
    let t = none.updated(g, points, width);
    let last = points.last().0 as int / (width as int);
    assert(points.skip(0) =~= points);
    law_bins_hold_their_steps(points.last().0, width);
    law_bins_reach_the_last_point(points, width);
    assert(b <= last) by {
        if b > last {
            assert((last + 1) * width <= b * width) by (nonlinear_arith)
                requires
                    last + 1 <= b,
            ;
        }
    }
    lemma_bin_nonneg(points.last().0, width);
    lemma_points_layout(
        none.grown(bins_needed(points, width), width),
        g,
        g,
        points,
        width,
    );
    assert(t.count.len() == last + 1);
    law_update_counts_new_points(none, g, points, width, b);
    assert(mine == points.skip(0).filter(|p: (u32, u32)| b * width <= p.0 < (b + 1) * width));
    law_update_runs_through_new_values(none, g, points, width, b, mine, trace);
    law_bands_and_lines_show_each_bin(run, t, b);
}

/// What is drawn of a run is what its series gives, in the colour of its name; and a run is
/// drawn exactly if it is there and there is something to draw.
pub proof fn law_runs_are_drawn_from_their_series(
    plot: RunPlot,
    series: Option<Series>,
    runs: Map<Seq<char>, Series>,
    run: Seq<char>,
    plots: Seq<RunPlot>,
    items: Seq<PlotItem>,
    i: int,
)
    ensures
        plot.shows(series) ==> series is Some && item_views(plot.items@) == drawn(
            plot.run@,
            series->0,
        ) && plot.color == color_of(name_hash(plot.run@)),
        drawable(runs, run) <==> runs.contains_key(run) && drawn(run, runs[run]).len() > 0,
        plotted(plots).len() == plots.len(),
        0 <= i < plots.len() ==> plotted(plots)[i] == plots[i].run@,
        item_views(items).len() == items.len(),
        0 <= i < items.len() ==> item_views(items)[i] == items[i]@,
{
}

/// What items stand for.
pub proof fn law_items_stand_for_their_fields(
    name: String,
    xs: Vec<u64>,
    lowers: Vec<u32>,
    uppers: Vec<u32>,
    means: Vec<(u64, u32)>,
    points: Vec<(u32, u32)>,
)
    ensures
        (PlotItem::Band { name, xs, lowers, uppers })@ == (ItemView::Band {
            name: name@,
            xs: xs@,
            lowers: lowers@,
            uppers: uppers@,
        }),
        (PlotItem::Line { name, means })@ == (ItemView::Line { name: name@, means: means@ }),
        (PlotItem::Dashed { name, points })@ == (ItemView::Dashed {
            name: name@,
            points: points@,
        }),
{
}

/// The hue of a run is the hash of its name in degrees. Red is full within sixty degrees of
/// red, least within sixty of its opposite, and in between elsewhere; so are green and blue.
pub proof fn law_colours_by_hue(hash: u64)
    ensures
        ({
            let color = color_of(hash);
            let hue = hash as int % 360;
            &&& color.hue == hue
            &&& color.red == Channel::Full <==> hue < 60 || hue >= 300
            &&& color.red == Channel::Least <==> 120 <= hue < 240
            &&& color.green == Channel::Full <==> 60 <= hue < 180
            &&& color.green == Channel::Least <==> hue >= 240
            &&& color.blue == Channel::Full <==> 180 <= hue < 300
            &&& color.blue == Channel::Least <==> hue < 120
        }),
{
}

/// The hash of a name is what a hasher gives that was fed the name and nothing else.
pub proof fn law_hashes_are_of_the_name(name: Seq<char>)
    ensures
        name_hash(name) == DefaultHasher::spec_finish(fed(name)),
{
}

/// A width is kept as it is within the range of the slider, and brought to its nearer end
/// outside.
pub proof fn law_widths_are_kept_in_range(width: u32)
    ensures
        300 <= kept_in_range(width) <= 100_000,
        300 <= width <= 100_000 ==> kept_in_range(width) == width,
        width < 300 ==> kept_in_range(width) == 300,
        width > 100_000 ==> kept_in_range(width) == 100_000,
        MIN_INTERVAL == 300,
        MAX_INTERVAL == 100_000,
{
}

/// Every point that comes in is passed on to the worker as it is, and the window is drawn
/// again; nothing in the window changes.
pub proof fn law_points_are_passed_on(
    board: Board,
    p: ScalarPoint,
    next: Board,
    effect: UiEffect,
)
    requires
        board.responds(UiEvent::PointReceived(p), next, effect),
    ensures
        effect.forward == Some(ControlMsg::NewPoint(p)),
        effect.repaint,
        !effect.start_processing,
        effect.screenshot is None,
        next.maximized_tag == board.maximized_tag,
        next.step_interval == board.step_interval,
{
}

/// While the worker is busy the window is drawn again and again.
pub proof fn law_a_busy_worker_repaints(board: Board, busy: bool, next: Board, effect: UiEffect)
    requires
        board.responds(UiEvent::Busy(busy), next, effect),
    ensures
        effect.repaint == busy,
        effect.forward is None,
        !effect.start_processing,
        effect.screenshot is None,
        next.maximized_tag == board.maximized_tag,
        next.step_interval == board.step_interval,
{
}

/// The slider sets the width, and tells the worker when it is let go, and only then.
pub proof fn law_the_slider_is_let_go(
    board: Board,
    value: u32,
    changed: bool,
    dragged: bool,
    drag_stopped: bool,
    next: Board,
    effect: UiEffect,
)
    requires
        300 <= value <= 100_000,
        board.responds(UiEvent::Slider { value, changed, dragged, drag_stopped }, next, effect),
    ensures
        next.step_interval == value,
        next.maximized_tag == board.maximized_tag,
        drag_stopped ==> effect.forward == Some(ControlMsg::ResetInterval(value))
            && effect.start_processing,
        !drag_stopped ==> effect.forward is None && !effect.start_processing,
        effect.repaint == (changed || dragged || drag_stopped),
        effect.screenshot is None,
{
}

/// The buttons: a tag fills the window, or all tags are shown again, or the tag that fills
/// the window is saved under its name. None of them speaks to the worker or changes the
/// width.
pub proof fn law_buttons(
    board: Board,
    tag: String,
    next: Board,
    effect: UiEffect,
)
    ensures
        board.responds(UiEvent::ExpandClicked(tag), next, effect) ==> next.maximized_tag == Some(tag)
            && next.step_interval == board.step_interval && effect.forward is None
            && !effect.start_processing && !effect.repaint && effect.screenshot is None,
        board.responds(UiEvent::BackClicked, next, effect) ==> next.maximized_tag is None
            && next.step_interval == board.step_interval && effect.forward is None
            && !effect.start_processing && effect.repaint == (board.maximized_tag is Some)
            && effect.screenshot is None,
        board.responds(UiEvent::ExportClicked, next, effect) ==> next.maximized_tag
            == board.maximized_tag && next.step_interval == board.step_interval
            && effect.forward is None && !effect.start_processing && effect.repaint == (
        board.maximized_tag is Some) && (effect.screenshot is Some) == (board.maximized_tag is Some)
            && (effect.screenshot is Some ==> effect.screenshot->0@ == export_name(
            board.maximized_tag->0@,
        )),
{
}

/// The file of a tag bears its name, with an underscore for each slash, and ends in `.png`.
pub proof fn law_files_are_named_after_tags(tag: Seq<char>, i: int)
    ensures
        export_name(tag).len() == tag.len() + 4,
        export_name(tag).skip(tag.len() as int) == seq!['.', 'p', 'n', 'g'],
        0 <= i < tag.len() && tag[i] != '/' ==> export_name(tag)[i] == tag[i],
        0 <= i < tag.len() && tag[i] == '/' ==> export_name(tag)[i] == '_',
        flattened(tag).len() == tag.len(),
{
    reveal_strlit(".png");
    assert(".png"@ =~= seq!['.', 'p', 'n', 'g']);
    assert(export_name(tag).skip(tag.len() as int) =~= ".png"@);
}

proof fn lemma_tags_filter(
    tags: Seq<Seq<char>>,
    section: Seq<char>,
    pred: spec_fn(Seq<char>) -> bool,
)
    requires
        forall|tag: Seq<char>| #[trigger] pred(tag) <==> section_name(tag) == section,
    ensures
        tags_in(tags, section) == tags.filter(pred),
    decreases tags.len(),
{
    reveal(Seq::filter);
    if tags.len() > 0 {
        lemma_tags_filter(tags.drop_last(), section, pred);
    } else {
        assert(tags =~= Seq::empty());
    }
}

/// A section holds the tags whose names before the first slash are its own, in the order in
/// which they are given; and there is a section for each such name, and no other.
pub proof fn law_sections_hold_their_tags(tags: Seq<Seq<char>>, section: Seq<char>)
    ensures
        tags_in(tags, section) == tags.filter(|tag: Seq<char>| section_name(tag) == section),
        grouped(tags).contains_key(section) <==> exists|i: int|
            0 <= i < tags.len() && section_name(#[trigger] tags[i]) == section,
        grouped(tags).contains_key(section) ==> grouped(tags)[section] == tags.filter(
            |tag: Seq<char>| section_name(tag) == section,
        ),
{
    let pred = |tag: Seq<char>| section_name(tag) == section;
    lemma_tags_filter(tags, section, pred);
    broadcast use vstd::seq_lib::group_filter_ensures;

    let held = tags.filter(pred);
    if exists|i: int| 0 <= i < tags.len() && section_name(#[trigger] tags[i]) == section {
        let i = choose|i: int| 0 <= i < tags.len() && section_name(#[trigger] tags[i]) == section;
        assert(pred(tags[i]));
        assert(held.contains(tags[i]));
    }
    if held.len() > 0 {
        assert(held.contains(held[0]));
        lemma_tags_in(tags, section, held[0]);
        let i = tags.index_of(held[0]);
        assert(section_name(tags[i]) == section);
    }
}

/// Sections stand for the texts of the tags that are listed under their names.
pub proof fn law_sections_stand_for_their_entries(
    sections: NameMap<Vec<String>>,
    section: Seq<char>,
)
    ensures
        sectioned(sections).contains_key(section) <==> sections@.contains_key(section),
        sections@.contains_key(section) ==> sectioned(sections)[section] == texts(
            sections@[section]@,
        ),
{
}

/// A picture needs four bytes for each pixel. Where there is at least one row, and the bytes
/// are in memory, that is all.
pub proof fn law_pictures_need_four_bytes_a_pixel(width: u32, height: u32, len: nat)
    requires
        len <= usize::MAX,
        height > 0,
    ensures
        covers(width, height, len) <==> width * height * 4 <= len,
{
    assert(4 * width * height == width * height * 4) by (nonlinear_arith);
    assert(4 * width <= 4 * width * height) by (nonlinear_arith)
        requires
            height >= 1,
    ;
}

} // verus!
