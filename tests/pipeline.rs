use benchmarks::decimal::parse_decimal;
use benchmarks::device::{disable_ovr_metrics, enable_ovr_metrics, kill, launch, LaunchStep};
use benchmarks::frame::{parse_frame_lines, parse_ovr_metrics, parse_stamp, FrameError};
use benchmarks::gpu::{parse_gpu_metrics, GpuParseError};
use benchmarks::run::{
    all_time_averages, assemble_run, get_averages, previous_run_id, record_run, run_result,
    AggregationError, AssembleError, BucketAnswer, MetricAverage, RecordError,
};
use benchmarks::series::{contains_key, cpu_time, mean, EmptySeriesError, NamedSeries, Sample};

fn chars(s: &str) -> Vec<char> {
    s.chars().collect()
}

fn series(name: &str, values: &[i64]) -> NamedSeries {
    NamedSeries {
        name: name.to_string(),
        samples: values
            .iter()
            .enumerate()
            .map(|(i, v)| Sample { value: *v, timestamp: 1000 * i as u64 })
            .collect(),
    }
}

fn find<'a>(metrics: &'a [NamedSeries], name: &str) -> &'a NamedSeries {
    metrics.iter().find(|m| m.name == name).expect("series present")
}

#[test]
pub fn test_parse_gpu_metrics() {
    let test_string = r#"Clocks / Second                            :   427468384.000
GPU % Bus Busy                             :          12.054
% Vertex Fetch Stall                       :           9.646

Clocks / Second                            :   478906784.000
GPU % Bus Busy                             :           9.189
% Vertex Fetch Stall                       :          10.290

Clocks / Second                            :   395378048.000
GPU % Bus Busy                             :          10.143
% Vertex Fetch Stall                       :          10.761

Clocks / Second                            :   395940032.000
GPU % Bus Busy                             :          10.171
% Vertex Fetch Stall                       :          10.965

Clocks / Second                            :   396080448.000
GPU % Bus Busy                             :          10.150
% Vertex Fetch Stall                       :          10.868"#
        .to_string();

    let metrics = parse_gpu_metrics(&test_string, 0).unwrap();
    assert!(contains_key(&metrics, "Clocks / Second"));
}

#[test]
fn gpu_blocks_are_a_second_apart() {
    let text = "A : 1.5\r\r\nB : 2\r\r\n\nA : 2.5\r\r\nB : 3\n\n\nA : -1\n";
    let start = 1_668_142_546_000u64;
    let metrics = parse_gpu_metrics(text, start).unwrap();
    assert_eq!(metrics.len(), 2);
    assert_eq!(metrics[0].name, "A");
    assert_eq!(metrics[1].name, "B");
    let a: Vec<(i64, u64)> = metrics[0].samples.iter().map(|s| (s.value, s.timestamp)).collect();
    assert_eq!(a, vec![(1500, start), (2500, start + 1000), (-1000, start + 2000)]);
    let b: Vec<(i64, u64)> = metrics[1].samples.iter().map(|s| (s.value, s.timestamp)).collect();
    assert_eq!(b, vec![(2000, start), (3000, start + 1000)]);
}

#[test]
fn gpu_single_block_is_stamped_at_start() {
    let start = 1_000_000u64;
    let metrics = parse_gpu_metrics("Clocks / Second : 100.0", start).unwrap();
    assert_eq!(metrics.len(), 1);
    assert_eq!(metrics[0].name, "Clocks / Second");
    assert_eq!(metrics[0].samples, vec![Sample { value: 100_000, timestamp: start }]);
}

#[test]
fn gpu_missing_value_fails() {
    assert_eq!(parse_gpu_metrics("A : 1\nB :\n", 0).unwrap_err(), GpuParseError { line: 1 });
    assert_eq!(parse_gpu_metrics("A 1\n", 0).unwrap_err(), GpuParseError { line: 0 });
    assert_eq!(parse_gpu_metrics("A : x1\n", 0).unwrap_err(), GpuParseError { line: 0 });
}

#[test]
fn gpu_empty_output_has_no_series() {
    assert!(parse_gpu_metrics("", 5).unwrap().is_empty());
    assert!(parse_gpu_metrics("  \n\n ", 5).unwrap().is_empty());
}

#[test]
fn decimals_in_thousandths() {
    let cases: Vec<(&str, Option<i64>)> = vec![
        ("4.27", Some(4270)),
        ("-0.5", Some(-500)),
        ("+7", Some(7000)),
        ("12.0549", Some(12054)),
        (".5", Some(500)),
        ("7.", Some(7000)),
        ("427468384.000", Some(427_468_384_000)),
        ("", None),
        (".", None),
        ("-", None),
        ("1e5", Some(100_000_000)),
        ("2.5e-3", Some(2)),
        ("1E4", Some(10_000_000)),
        ("-1.5e+2", Some(-150_000)),
        ("1.23456e3", Some(1_234_560)),
        ("1e-4", Some(0)),
        ("1e15", None),
        ("1e", None),
        ("e5", None),
        ("1e9999", None),
        ("0e10000", None),
        ("1.2.e3", None),
        ("1.2.3", None),
        ("1000000000000000", None),
        ("999999999999999.999", Some(999_999_999_999_999_999)),
    ];
    for (text, expected) in cases {
        let t = chars(text);
        assert_eq!(parse_decimal(&t, 0, t.len()), expected, "{text}");
    }
}

#[test]
fn stamp_drops_the_point() {
    let t = chars("1668142546.002");
    assert_eq!(parse_stamp(&t, 0), Some(1_668_142_546_002));
    let t = chars("11-10 12:51:47");
    assert_eq!(parse_stamp(&t, 0), None);
}

const FRAME_LINE: &str = "         1668142546.002  3409  1858 I VrApi   : FPS=90/90,Prd=29ms,Tear=0,Early=0,Stale=0,VSnc=0,Lat=-1,Fov=0,CPU4/GPU=2/3,2419/490MHz,OC=FF,TA=0/70/0,SP=N/F/N,Mem=2092MHz,Free=3756MB,PLS=0,Temp=25.7C/0.0C,TW=1.90ms,App=4.27ms,GD=0.00ms,CPU&GPU=6.86ms,LCnt=2(DR0,LM0),GPU%=0.59,CPU%=0.19(W0.24),DSF=1.00,CFL=14.46/19.67";

#[test]
fn frame_line_gives_three_series() {
    let text = format!("--------- beginning of main\n{FRAME_LINE}\n");
    let mut metrics = Vec::new();
    parse_ovr_metrics(&text, &mut metrics).unwrap();
    assert_eq!(metrics.len(), 3);
    let ts = 1_668_142_546_002u64;
    assert_eq!(find(&metrics, "GPU Time").samples, vec![Sample { value: 4270, timestamp: ts }]);
    assert_eq!(
        find(&metrics, "Total Frame Time").samples,
        vec![Sample { value: 6860, timestamp: ts }]
    );
    assert_eq!(find(&metrics, "CPU Time").samples, vec![Sample { value: 2590, timestamp: ts }]);
}

#[test]
fn frame_lines_without_tag_are_skipped() {
    let (gpu, total) = parse_frame_lines("hello\nworld: App=1ms").unwrap();
    assert!(gpu.is_empty());
    assert!(total.is_empty());
}

#[test]
fn frame_errors() {
    let bad_value = "1668142546.002 VrApi : App=x,CPU&GPU=6ms";
    assert_eq!(parse_frame_lines(bad_value).unwrap_err(), FrameError::Parse(0));
    let short = "12 VrApi : App=1ms,CPU&GPU=6ms";
    assert_eq!(parse_frame_lines(short).unwrap_err(), FrameError::Parse(0));
    let one_sided = "1668142546.002 VrApi : App=1ms";
    let mut metrics = Vec::new();
    assert!(matches!(
        parse_ovr_metrics(one_sided, &mut metrics),
        Err(FrameError::Misaligned(_))
    ));
    assert!(metrics.is_empty());
}

#[test]
fn cpu_time_is_pointwise_difference() {
    let total = vec![Sample { value: 6860, timestamp: 10 }, Sample { value: 5000, timestamp: 20 }];
    let gpu = vec![Sample { value: 4270, timestamp: 11 }, Sample { value: 6000, timestamp: 21 }];
    let cpu = cpu_time(&total, &gpu).unwrap();
    assert_eq!(
        cpu,
        vec![Sample { value: 2590, timestamp: 10 }, Sample { value: -1000, timestamp: 20 }]
    );
    let err = cpu_time(&total, &gpu[..1].to_vec()).unwrap_err();
    assert_eq!((err.total_len, err.gpu_len), (2, 1));
}

#[test]
fn mean_rounds_down() {
    assert_eq!(mean(&series("x", &[1000, 2000, 4000]).samples), Ok(2333));
    assert_eq!(mean(&series("x", &[-1000, -2000, -4000]).samples), Ok(-2334));
    assert_eq!(mean(&series("x", &[i64::MAX, i64::MAX]).samples), Ok(i64::MAX));
    assert_eq!(mean(&Vec::new()), Err(EmptySeriesError));
}

#[test]
fn run_at_target_passes() {
    assert!(run_result(13_000));
    assert!(!run_result(13_001));
    let metrics = vec![series("GPU Time", &[4000]), series("Total Frame Time", &[12_000, 14_000])];
    let rec = record_run(&metrics, "change".to_string(), 77, 4).unwrap();
    assert!(rec.summary.result);
    assert_eq!(rec.summary.id, 4);
    assert_eq!(rec.summary.timestamp, 77);
    assert_eq!(rec.summary.description, "change");
    let slow = vec![series("Total Frame Time", &[13_000, 13_002])];
    assert!(!record_run(&slow, String::new(), 0, 0).unwrap().summary.result);
    let just_over = vec![series("Total Frame Time", &[13_000, 13_001])];
    assert!(!record_run(&just_over, String::new(), 0, 0).unwrap().summary.result);
    let exact = vec![series("Total Frame Time", &[12_999, 13_001])];
    assert!(record_run(&exact, String::new(), 0, 0).unwrap().summary.result);
}

#[test]
fn record_errors() {
    let empty = vec![series("Total Frame Time", &[1]), series("GPU Time", &[])];
    assert_eq!(record_run(&empty, String::new(), 0, 0).unwrap_err(), RecordError::EmptySeries(1));
    let no_total = vec![series("GPU Time", &[1])];
    assert_eq!(
        record_run(&no_total, String::new(), 0, 0).unwrap_err(),
        RecordError::MissingTotalFrameTime
    );
    assert!(get_averages(&empty).is_err());
}

fn avg(name: &str, value: i64) -> MetricAverage {
    MetricAverage { name: name.to_string(), value }
}

#[test]
fn first_run_has_zero_last_values() {
    assert_eq!(previous_run_id(0), None);
    assert_eq!(previous_run_id(5), Some(4));
    let current = vec![avg("A", 5), avg("B", 6)];
    let all = vec![avg("B", 60), avg("A", 50)];
    let run = assemble_run("d".to_string(), 9, true, &current, &Vec::new(), &all).unwrap();
    assert_eq!(run.metrics.len(), 2);
    assert!(run.metrics.iter().all(|m| m.last_value == 0));
    assert_eq!(run.metrics[0].average_value, 50);
    assert_eq!(run.metrics[1].average_value, 60);
}

#[test]
fn assembled_values_round_trip() {
    let metrics = vec![series("Total Frame Time", &[6000, 7001]), series("GPU Time", &[3000])];
    let rec = record_run(&metrics, "r".to_string(), 1, 1).unwrap();
    let previous = vec![avg("GPU Time", 2500)];
    let all = vec![avg("GPU Time", 2800), avg("Total Frame Time", 6400)];
    let run = assemble_run(
        rec.summary.description.clone(),
        rec.summary.timestamp,
        rec.summary.result,
        &rec.averages,
        &previous,
        &all,
    )
    .unwrap();
    assert_eq!(run.metrics[0].name, "Total Frame Time");
    assert_eq!(run.metrics[0].value, 6500);
    assert_eq!(run.metrics[0].last_value, 0);
    assert_eq!(run.metrics[0].average_value, 6400);
    assert_eq!(run.metrics[1].value, 3000);
    assert_eq!(run.metrics[1].last_value, 2500);
    assert_eq!(
        assemble_run(String::new(), 0, false, &rec.averages, &previous, &previous).unwrap_err(),
        AssembleError::MissingAverage(0)
    );
}

#[test]
fn all_time_average_takes_latest_bucket() {
    let answers = vec![
        BucketAnswer { name: "A".to_string(), buckets: vec![(100, 4270), (0, 1)] },
        BucketAnswer { name: "B".to_string(), buckets: vec![(0, 12)] },
    ];
    let all = all_time_averages(&answers).unwrap();
    assert_eq!(all.len(), 2);
    assert_eq!((all[0].name.as_str(), all[0].value), ("A", 4270));
    assert_eq!((all[1].name.as_str(), all[1].value), ("B", 12));
    let none = vec![BucketAnswer { name: "A".to_string(), buckets: vec![] }];
    assert_eq!(all_time_averages(&none).unwrap_err(), AggregationError);
}

#[test]
fn single_run_all_time_average_is_its_mean() {
    let run = series("GPU Time", &[4270, 4300, 4000]);
    let m = mean(&run.samples).unwrap();
    let answers = vec![BucketAnswer { name: "GPU Time".to_string(), buckets: vec![(0, m)] }];
    assert_eq!(all_time_averages(&answers).unwrap()[0].value, m);
    assert_eq!(m, 4190);
}

#[test]
fn device_commands() {
    assert_eq!(kill(), "am force-stop rust.the_station");
    assert!(enable_ovr_metrics().ends_with("ENABLE_CSV"));
    assert!(disable_ovr_metrics().ends_with("DISABLE_CSV"));
    let steps = launch();
    assert_eq!(steps.len(), 4);
    assert!(matches!(&steps[0], LaunchStep::Shell(s) if s == "am force-stop rust.the_station"));
    assert!(matches!(steps[1], LaunchStep::Build));
    assert!(matches!(steps[2], LaunchStep::Install));
    assert!(
        matches!(&steps[3], LaunchStep::Shell(s) if s == "am start rust.the_station/android.app.NativeActivity")
    );
}

#[test]
fn contains_key_misses_absent_names() {
    let metrics = vec![series("GPU Time", &[1])];
    assert!(contains_key(&metrics, "GPU Time"));
    assert!(!contains_key(&metrics, "CPU Time"));
    assert!(!contains_key(&Vec::new(), ""));
}

#[test]
fn gpu_whitespace_line_stays_in_block() {
    let start = 5_000u64;
    let metrics = parse_gpu_metrics("A : 1\n  \t \nB : 2\n\r\r\nA : 3\nB : 4\n", start).unwrap();
    assert_eq!(metrics.len(), 2);
    assert_eq!(
        metrics[1].samples,
        vec![Sample { value: 2000, timestamp: start }, Sample { value: 4000, timestamp: start + 1000 }]
    );
    assert_eq!(metrics[0].samples[1], Sample { value: 3000, timestamp: start + 1000 });
}
