use scalarboard::cache::SeriesCache;
use scalarboard::data::{BinnedData, ControlMsg, DataStore, Moments, RawPoints, ScalarPoint};
use scalarboard::plot::{draw_plot_contents, PlotItem};
use scalarboard::worker::{Batch, ComputeWorker, DEFAULT_INTERVAL};

fn welford(mean: u32, m2: u32, n: u32, value: u32) -> Moments {
    let old_mean = f32::from_bits(mean);
    let x = f32::from_bits(value);
    let delta = x - old_mean;
    let new_mean = old_mean + delta / n as f32;
    let new_m2 = f32::from_bits(m2) + delta * (x - new_mean);
    let deviation = (new_m2 / n as f32).sqrt();
    Moments {
        mean: new_mean.to_bits(),
        m2: new_m2.to_bits(),
        lower: (new_mean - deviation).to_bits(),
        upper: (new_mean + deviation).to_bits(),
    }
}

fn logged(tag: &str, run: &str, step: u32, value: f32) -> ControlMsg {
    ControlMsg::NewPoint(ScalarPoint {
        run_name: run.to_string(),
        tag: tag.to_string(),
        step,
        value: value.to_bits(),
    })
}

fn run(worker: &mut ComputeWorker, cache: &mut SeriesCache, messages: &[ControlMsg]) -> Batch {
    let batch = worker.absorb(messages);
    assert!(worker.can_refresh(&batch, cache));
    worker.refresh(&batch, cache, &welford);
    batch
}

fn binned(cache: &SeriesCache, tag: &str, run: &str) -> BinnedData {
    match cache.get(tag, run) {
        Some(DataStore::Binned(binned)) => binned,
        other => panic!("not binned: {:?}", other),
    }
}

fn raw(cache: &SeriesCache, tag: &str, run: &str) -> RawPoints {
    match cache.get(tag, run) {
        Some(DataStore::Raw(raw)) => raw,
        other => panic!("not shown point by point: {:?}", other),
    }
}

fn sorted(mut names: Vec<String>) -> Vec<String> {
    names.sort();
    names
}

#[test]
fn points_reach_their_series() {
    let mut worker = ComputeWorker::new();
    let mut cache = SeriesCache::new();
    assert_eq!(worker.current_interval, DEFAULT_INTERVAL);
    assert_eq!(DEFAULT_INTERVAL, 10_000);
    let batch = run(
        &mut worker,
        &mut cache,
        &[
            logged("train/loss", "b", 1, 1.0),
            logged("eval/reward", "a", 5, 2.0),
            logged("train/loss", "a", 15_000, 3.0),
            logged("train/loss", "b", 2, 3.0),
        ],
    );
    assert!(!batch.reset);
    assert_eq!(batch.tags, vec!["eval/reward", "train/loss"]);
    assert_eq!(sorted(cache.tags()), vec!["eval/reward", "train/loss"]);
    assert_eq!(sorted(cache.runs("train/loss")), vec!["a", "b"]);
    assert_eq!(binned(&cache, "train/loss", "b").num_elements, vec![2]);
    assert_eq!(binned(&cache, "train/loss", "a").num_elements, vec![0, 1]);
    assert_eq!(raw(&cache, "eval/reward", "a").coords, vec![(5, 2.0f32.to_bits())]);
    assert!(cache.get("eval/reward", "b").is_none());
    assert!(cache.get("eval", "a").is_none());
    assert!(cache.runs("eval").is_empty());
}

#[test]
fn tags_that_only_resemble_eval_are_binned() {
    let mut worker = ComputeWorker::new();
    let mut cache = SeriesCache::new();
    run(&mut worker, &mut cache, &[logged("evaluation/loss", "a", 1, 1.0)]);
    assert_eq!(binned(&cache, "evaluation/loss", "a").num_elements, vec![1]);
}

#[test]
fn only_tags_with_new_points_are_due() {
    let mut worker = ComputeWorker::new();
    let mut cache = SeriesCache::new();
    run(&mut worker, &mut cache, &[logged("x", "a", 1, 1.0), logged("y", "a", 1, 1.0)]);
    let batch = run(&mut worker, &mut cache, &[logged("y", "b", 2, 1.0)]);
    assert_eq!(batch.tags, vec!["y"]);
    assert_eq!(binned(&cache, "y", "a").processed_upto, 1);
    assert_eq!(binned(&cache, "y", "b").processed_upto, 1);
    let nothing = run(&mut worker, &mut cache, &[]);
    assert!(nothing.tags.is_empty());
}

#[test]
fn a_new_width_rebins_everything_but_eval_tags() {
    let mut worker = ComputeWorker::new();
    let mut cache = SeriesCache::new();
    run(
        &mut worker,
        &mut cache,
        &[
            logged("train/loss", "a", 100, 1.0),
            logged("train/loss", "a", 900, 2.0),
            logged("eval/reward", "a", 7, 2.0),
        ],
    );
    let batch = run(
        &mut worker,
        &mut cache,
        &[
            ControlMsg::ResetInterval(400),
            logged("eval/reward", "a", 8, 3.0),
            logged("train/loss", "a", 1000, 5.0),
            ControlMsg::ResetInterval(500),
        ],
    );
    assert!(batch.reset);
    assert_eq!(batch.tags, vec!["train/loss"]);
    assert_eq!(worker.current_interval, 500);
    let loss = binned(&cache, "train/loss", "a");
    assert_eq!(loss.num_elements, vec![1, 1, 1]);
    assert_eq!(loss.x_coords, vec![500, 1500, 2500]);
    // The evaluation tag waits for the next batch without a new width.
    assert_eq!(raw(&cache, "eval/reward", "a").coords.len(), 1);
    let next = run(&mut worker, &mut cache, &[]);
    assert_eq!(next.tags, vec!["eval/reward", "train/loss"]);
    assert_eq!(raw(&cache, "eval/reward", "a").coords.len(), 2);
    assert_eq!(binned(&cache, "train/loss", "a").num_elements, vec![1, 1, 1]);
}

#[test]
fn a_new_width_shows_new_tags_too() {
    let mut worker = ComputeWorker::new();
    let mut cache = SeriesCache::new();
    run(
        &mut worker,
        &mut cache,
        &[logged("train/loss", "a", 600, 1.0), ControlMsg::ResetInterval(300)],
    );
    assert_eq!(binned(&cache, "train/loss", "a").num_elements, vec![0, 0, 1]);
    assert_eq!(sorted(cache.tags()), vec!["train/loss"]);
}

#[test]
fn batches_do_not_matter_to_ordered_logs() {
    let steps: Vec<u32> = (0..40u32).map(|i| i * 3_137).collect();
    let value = |step: u32| (step % 1_009) as f32 * 0.1;
    let mut shown: Vec<String> = Vec::new();
    for size in [1usize, 6, 40] {
        let mut worker = ComputeWorker::new();
        let mut cache = SeriesCache::new();
        for part in steps.chunks(size) {
            let messages: Vec<ControlMsg> =
                part.iter().map(|step| logged("train/loss", "a", *step, value(*step))).collect();
            run(&mut worker, &mut cache, &messages);
        }
        shown.push(format!("{:?}", binned(&cache, "train/loss", "a")));
    }
    assert_eq!(shown[0], shown[1]);
    assert_eq!(shown[1], shown[2]);
}

#[test]
fn points_out_of_reach_cannot_be_shown() {
    let mut worker = ComputeWorker::new();
    let cache = SeriesCache::new();
    let batch = worker.absorb(&[logged("x", "a", 90_000, 1.0), logged("x", "a", 1, 1.0)]);
    assert!(!worker.can_refresh(&batch, &cache));
    let mut zero = ComputeWorker::new();
    let batch = zero.absorb(&[logged("x", "a", 1, 1.0), ControlMsg::ResetInterval(0)]);
    assert!(!zero.can_refresh(&batch, &cache));
}

#[test]
fn a_batch_is_taken_in_as_a_whole() {
    let mut worker = ComputeWorker::new();
    let mut cache = SeriesCache::new();
    let mut other = ComputeWorker::new();
    let mut other_cache = SeriesCache::new();
    let batches = [
        vec![logged("train/loss", "a", 100, 1.0), logged("eval/reward", "b", 7, 2.0)],
        vec![ControlMsg::ResetInterval(300), logged("train/loss", "a", 700, 3.0)],
        vec![],
        vec![logged("train/loss", "a", 800, 5.0)],
    ];
    let resets = [false, true, false, false];
    for (messages, reset) in batches.iter().zip(resets) {
        assert_eq!(worker.take_in(messages, &mut cache, &welford), Some(reset));
        assert_eq!(run(&mut other, &mut other_cache, messages).reset, reset);
        for (tag, name) in [("train/loss", "a"), ("eval/reward", "b")] {
            let shown = format!("{:?}", cache.get(tag, name));
            assert_eq!(shown, format!("{:?}", other_cache.get(tag, name)));
        }
    }
    assert_eq!(binned(&cache, "train/loss", "a").num_elements, vec![1, 0, 2]);
    assert_eq!(raw(&cache, "eval/reward", "b").coords.len(), 1);
}

#[test]
fn the_busy_flag_is_cleared_once_a_new_width_is_shown() {
    let mut worker = ComputeWorker::new();
    let mut cache = SeriesCache::new();
    let points = [logged("train/loss", "a", 700, 1.0)];
    let prepared = worker.prepare(&points, &cache, &welford).unwrap();
    assert!(cache.get("train/loss", "a").is_none());
    assert_eq!(prepared.show(&mut cache), None);
    assert_eq!(binned(&cache, "train/loss", "a").num_elements, vec![1]);
    let width = [ControlMsg::ResetInterval(300)];
    let prepared = worker.prepare(&width, &cache, &welford).unwrap();
    assert_eq!(binned(&cache, "train/loss", "a").num_elements, vec![1]);
    assert_eq!(prepared.show(&mut cache), Some(false));
    assert_eq!(binned(&cache, "train/loss", "a").num_elements, vec![0, 0, 1]);
}

#[test]
fn a_batch_that_cannot_be_shown_leaves_the_series_alone() {
    let mut worker = ComputeWorker::new();
    let mut cache = SeriesCache::new();
    assert_eq!(worker.take_in(&[logged("x", "a", 1, 1.0)], &mut cache, &welford), Some(false));
    let before = format!("{:?}", cache.get("x", "a"));
    assert_eq!(worker.take_in(&[ControlMsg::ResetInterval(0)], &mut cache, &welford), None);
    assert_eq!(format!("{:?}", cache.get("x", "a")), before);
    assert_eq!(worker.current_interval, 0);
    assert_eq!(worker.take_in(&[ControlMsg::ResetInterval(1)], &mut cache, &welford), Some(true));
    assert_eq!(binned(&cache, "x", "a").num_elements, vec![0, 1]);
}

#[test]
fn many_runs_are_brought_up_to_date_at_once() {
    let mut worker = ComputeWorker::new();
    let mut cache = SeriesCache::new();
    let mut messages: Vec<ControlMsg> = Vec::new();
    for step in 0..50u32 {
        for run_number in 0..40u32 {
            let name = format!("run{}", run_number);
            messages.push(logged("train/loss", &name, step * 1000, run_number as f32));
        }
    }
    run(&mut worker, &mut cache, &messages);
    for run_number in 0..40u32 {
        let series = binned(&cache, "train/loss", &format!("run{}", run_number));
        assert_eq!(series.num_elements, vec![10; 5]);
        assert_eq!(series.line_coords[4], (90_000, (run_number as f32).to_bits()));
    }
}

#[test]
fn the_last_write_is_read_back() {
    let mut cache = SeriesCache::new();
    assert!(cache.tags().is_empty());
    let first = DataStore::Raw(RawPoints { coords: vec![(1, 2)], processed_upto: 1 });
    let second = DataStore::Raw(RawPoints { coords: vec![(3, 4)], processed_upto: 1 });
    cache.put("t".to_string(), "a".to_string(), first);
    cache.put("t".to_string(), "b".to_string(), second.clone());
    cache.put("t".to_string(), "a".to_string(), second);
    assert_eq!(raw(&cache, "t", "a").coords, vec![(3, 4)]);
    assert_eq!(raw(&cache, "t", "b").coords, vec![(3, 4)]);
    assert_eq!(sorted(cache.runs("t")), vec!["a", "b"]);
}

#[test]
fn plots_show_bands_lines_and_dashes() {
    let mut worker = ComputeWorker::new();
    let mut cache = SeriesCache::new();
    run(
        &mut worker,
        &mut cache,
        &[logged("train/loss", "a", 1, 1.5), logged("eval/reward", "a", 5, 2.0)],
    );
    let train = draw_plot_contents(&cache, "train/loss");
    assert_eq!(train.len(), 1);
    assert_eq!(train[0].run, "a");
    assert_eq!(train[0].items.len(), 2);
    match &train[0].items[0] {
        PlotItem::Band { name, xs, lowers, uppers } => {
            assert_eq!(name, "a_area");
            assert_eq!(*xs, vec![10_000]);
            assert_eq!(*lowers, vec![1.5f32.to_bits()]);
            assert_eq!(*uppers, vec![1.5f32.to_bits()]);
        }
        other => panic!("not a band: {:?}", other),
    }
    match &train[0].items[1] {
        PlotItem::Line { name, means } => {
            assert_eq!(name, "a");
            assert_eq!(*means, vec![(10_000, 1.5f32.to_bits())]);
        }
        other => panic!("not a line: {:?}", other),
    }
    let eval = draw_plot_contents(&cache, "eval/reward");
    assert_eq!(eval.len(), 1);
    match &eval[0].items[..] {
        [PlotItem::Dashed { name, points }] => {
            assert_eq!(name, "a (eval)");
            assert_eq!(*points, vec![(5, 2.0f32.to_bits())]);
        }
        other => panic!("not a dashed line: {:?}", other),
    }
    assert!(draw_plot_contents(&cache, "nothing").is_empty());
}

#[test]
fn empty_series_are_not_drawn() {
    let mut cache = SeriesCache::new();
    cache.put("t".to_string(), "a".to_string(), DataStore::fresh(false));
    cache.put("t".to_string(), "b".to_string(), DataStore::fresh(true));
    assert!(draw_plot_contents(&cache, "t").is_empty());
}
