//! What a plot of a tag shows.
use vstd::prelude::*;
use vstd::string::StringExecFns;

use crate::cache::{lookup, runs_of, texts, SeriesCache};
use crate::color::{color_of, get_color_for_run, name_hash, RunColor};
use crate::data::{DataStore, Series};

verus! {

/// One thing drawn. Horizontal coordinates of bins are doubled; values are bit
/// patterns.
#[derive(Debug)]
pub enum PlotItem {
    /// A filled area around the mean.
    Band { name: String, xs: Vec<u64>, lowers: Vec<u32>, uppers: Vec<u32> },
    /// The line of the means.
    Line { name: String, means: Vec<(u64, u32)> },
    /// A dashed line through single points, by their steps.
    Dashed { name: String, points: Vec<(u32, u32)> },
}

pub enum ItemView {
    Band { name: Seq<char>, xs: Seq<u64>, lowers: Seq<u32>, uppers: Seq<u32> },
    Line { name: Seq<char>, means: Seq<(u64, u32)> },
    Dashed { name: Seq<char>, points: Seq<(u32, u32)> },
}

impl View for PlotItem {
    type V = ItemView;

    open spec fn view(&self) -> ItemView {
        match self {
            PlotItem::Band { name, xs, lowers, uppers } => ItemView::Band {
                name: name@,
                xs: xs@,
                lowers: lowers@,
                uppers: uppers@,
            },
            PlotItem::Line { name, means } => ItemView::Line { name: name@, means: means@ },
            PlotItem::Dashed { name, points } => ItemView::Dashed { name: name@, points: points@ },
        }
    }
}

/// The items in a list.
pub open spec fn item_views(items: Seq<PlotItem>) -> Seq<ItemView> {
    items.map_values(|item: PlotItem| item@)
}

/// What is drawn of a series: of a binned one the band and, over it, the line; of one
/// that is shown point by point a dashed line that is marked as such; of an empty one
/// nothing.
pub open spec fn drawn(run: Seq<char>, series: Series) -> Seq<ItemView> {
    match series {
        Series::Binned(bins) => if bins.lower.len() == 0 {
            Seq::empty()
        } else {
            seq![
                ItemView::Band {
                    name: run + "_area"@,
                    xs: bins.x,
                    lowers: bins.lower,
                    uppers: bins.upper,
                },
                ItemView::Line { name: run, means: bins.line },
            ]
        },
        Series::Raw(raw) => if raw.coords.len() == 0 {
            Seq::empty()
        } else {
            seq![ItemView::Dashed { name: run + " (eval)"@, points: raw.coords }]
        },
    }
}

/// A name with something after it.
fn suffixed(name: &String, suffix: &str) -> (r: String)
    ensures
        r@ == name@ + suffix@,
{
    let mut r = name.clone();
    r.append(suffix);
    r
}

/// What is drawn of a series.
pub fn items_of(run: &String, store: DataStore) -> (items: Vec<PlotItem>)
    ensures
        item_views(items@) == drawn(run@, store@),
{
    let mut items: Vec<PlotItem> = Vec::new();
    match store {
        DataStore::Binned(binned) => {
            if binned.lowers.len() > 0 {
                items.push(
                    PlotItem::Band {
                        name: suffixed(run, "_area"),
                        xs: binned.x_coords,
                        lowers: binned.lowers,
                        uppers: binned.uppers,
                    },
                );
                items.push(PlotItem::Line { name: run.clone(), means: binned.line_coords });
            }
        },
        DataStore::Raw(raw) => {
            if raw.coords.len() > 0 {
                items.push(
                    PlotItem::Dashed { name: suffixed(run, " (eval)"), points: raw.coords },
                );
            }
        },
    }
    assert(item_views(items@) =~= drawn(run@, store@));
    items
}

/// What is drawn of one run.
#[derive(Debug)]
pub struct RunPlot {
    pub run: String,
    pub color: RunColor,
    pub items: Vec<PlotItem>,
}

impl RunPlot {
    /// The run is drawn from its series, in its colour.
    pub open spec fn shows(&self, series: Option<Series>) -> bool {
        &&& self.color == color_of(name_hash(self.run@))
        &&& series matches Some(s) && item_views(self.items@) == drawn(self.run@, s)
            && self.items@.len() > 0
    }
}

/// The names of the runs that are drawn.
pub open spec fn plotted(plots: Seq<RunPlot>) -> Seq<Seq<char>> {
    plots.map_values(|plot: RunPlot| plot.run@)
}

/// There is something to draw of this run.
pub open spec fn drawable(runs: Map<Seq<char>, Series>, run: Seq<char>) -> bool {
    runs.contains_key(run) && drawn(run, runs[run]).len() > 0
}

/// Everything drawn in the plot of a tag: each run of which there is something to
/// draw, once, in the order in which the cache gives the runs.
pub fn draw_plot_contents(cache: &SeriesCache, tag: &str) -> (plots: Vec<RunPlot>)
    ensures
        plotted(plots@).no_duplicates(),
        forall|k: int|
            0 <= k < plots@.len() ==> (#[trigger] plots@[k]).shows(
                lookup(cache@, tag@, plots@[k].run@),
            ),
        forall|run: Seq<char>| #[trigger]
            plotted(plots@).contains(run) <==> drawable(runs_of(cache@, tag@), run),
{
    let runs = cache.runs(tag);
    let ghost names = texts(runs@);
    let mut plots: Vec<RunPlot> = Vec::new();
    let mut i: usize = 0;
    while i < runs.len()
        invariant
            i <= runs@.len(),
            names == texts(runs@),
            names.no_duplicates(),
            names.to_set() == runs_of(cache@, tag@).dom(),
            plotted(plots@).no_duplicates(),
            forall|k: int|
                0 <= k < plots@.len() ==> (#[trigger] plots@[k]).shows(
                    lookup(cache@, tag@, plots@[k].run@),
                ),
            forall|k: int|
                0 <= k < plots@.len() ==> exists|j: int|
                    0 <= j < i && #[trigger] names[j] == (#[trigger] plots@[k]).run@,
            forall|j: int|
                0 <= j < i && drawable(runs_of(cache@, tag@), names[j]) ==> plotted(
                    plots@,
                ).contains(#[trigger] names[j]),
        decreases runs.len() - i,
    {
        let ghost was = plots@;
        let run: &String = &runs[i];
        let ghost name = names[i as int];
        assert(name == run@);
        assert(names.to_set().contains(name)) by {
            assert(names.contains(name));
        }
        if let Some(store) = cache.get(tag, run.as_str()) {
            let items = items_of(run, store);
            assert(items@.len() == item_views(items@).len());
            if items.len() > 0 {
                let plot = RunPlot {
                    run: run.clone(),
                    color: get_color_for_run(run.as_str()),
                    items,
                };
                plots.push(plot);
                proof {
                    assert(plotted(plots@) =~= plotted(was).push(name));
                    assert forall|k: int| 0 <= k < was.len() implies plotted(was)[k] != name by {
                        let j = choose|j: int| 0 <= j < i && #[trigger] names[j] == was[k].run@;
                        assert(names[j] != names[i as int]);
                    }
                    assert forall|k: int| 0 <= k < plots@.len() implies exists|j: int|
                        0 <= j < i + 1 && #[trigger] names[j] == (#[trigger] plots@[k]).run@ by {
                        if k < was.len() {
                            assert(plots@[k] == was[k]);
                        } else {
                            assert(names[i as int] == plots@[k].run@);
                        }
                    }
                    assert(plotted(plots@)[was.len() as int] == name);
                    assert forall|j: int|
                        0 <= j < i + 1 && drawable(
                            runs_of(cache@, tag@),
                            names[j],
                        ) implies plotted(plots@).contains(#[trigger] names[j]) by {
                        if j < i {
                            let k = plotted(was).index_of(names[j]);
                            assert(plotted(was).contains(names[j]));
                            assert(plotted(plots@)[k] == names[j]);
                        }
                    }
                }
            }
        }
        i += 1;
    }
    proof {
        assert forall|run: Seq<char>| #[trigger] plotted(plots@).contains(run) implies drawable(
            runs_of(cache@, tag@),
            run,
        ) by {
            let k = plotted(plots@).index_of(run);
            assert(plots@[k].run@ == run);
            assert(plots@[k].shows(lookup(cache@, tag@, run)));
            assert(plots@[k].items@.len() == item_views(plots@[k].items@).len());
        }
        assert forall|run: Seq<char>| drawable(runs_of(cache@, tag@), run) implies #[trigger] plotted(
            plots@,
        ).contains(run) by {
            assert(names.to_set().contains(run));
            let j = names.index_of(run);
            assert(names[j] == run);
        }
    }
    plots
}

/// The three lists of a band are of one length, one entry for each bin.
pub proof fn law_bands_are_even(run: Seq<char>, series: Series, i: int)
    requires
        series.wf(),
        0 <= i < drawn(run, series).len(),
    ensures
        drawn(run, series)[i] matches ItemView::Band { xs, lowers, uppers, .. } ==> xs.len()
            == lowers.len() && xs.len() == uppers.len() && xs.len() > 0,
{
}

} // verus!
