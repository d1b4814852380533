use frame_view_tools::schema::MS_BETWEEN_PRESENTS;
use frame_view_tools::{decode_capture, frame_time_samples, schema, ColumnKind, MetricError};
use rayon::prelude::{IntoParallelRefIterator, ParallelIterator};

fn capture(ms: &[&str]) -> String {
    let cols = schema();
    let header: Vec<String> = cols.iter().map(|c| c.name.clone()).collect();
    let mut text = header.join(",");
    text.push('\n');
    for m in ms {
        let row: Vec<&str> = cols
            .iter()
            .enumerate()
            .map(|(i, c)| {
                if i == MS_BETWEEN_PRESENTS {
                    *m
                } else {
                    match c.kind {
                        ColumnKind::Text => "x",
                        ColumnKind::Float => "1.5",
                        ColumnKind::Uint => "7",
                        ColumnKind::Flag => "0",
                    }
                }
            })
            .collect();
        text.push_str(&row.join(","));
        text.push('\n');
    }
    text
}

fn samples(ms: &[&str]) -> Result<Vec<String>, MetricError> {
    frame_time_samples(&decode_capture(capture(ms).as_bytes()).unwrap())
}

fn mean_fps(samples: &[String]) -> f64 {
    let fps: Vec<f64> = samples.iter().map(|s| 1000.0 / s.parse::<f64>().unwrap()).collect();
    fps.iter().sum::<f64>() / fps.len() as f64
}

#[test]
fn no_records_gives_no_valid_samples() {
    assert_eq!(samples(&[]), Err(MetricError::NoValidSamples));
}

#[test]
fn only_absent_values_gives_no_valid_samples() {
    assert_eq!(samples(&["NA", "Error", " NA "]), Err(MetricError::NoValidSamples));
}

#[test]
fn ten_and_twenty_ms_average_seventy_five_fps() {
    let s = samples(&["10.0", "20.0"]).unwrap();
    assert_eq!(s, vec!["10.0".to_string(), "20.0".to_string()]);
    assert_eq!(mean_fps(&s), 75.0);
}

#[test]
fn absent_values_are_left_out() {
    let s = samples(&["10.0", "NA", "20.0", "Error"]).unwrap();
    assert_eq!(s, vec!["10.0".to_string(), "20.0".to_string()]);
    assert_eq!(mean_fps(&s), 75.0);
}

#[test]
fn samples_keep_record_order() {
    let s = samples(&["3", "1", "NA", "2"]).unwrap();
    assert_eq!(s, vec!["3".to_string(), "1".to_string(), "2".to_string()]);
}

#[test]
fn zero_interval_gives_infinite_rate() {
    let s = samples(&["0", "10"]).unwrap();
    assert!(mean_fps(&s).is_infinite());
}

#[test]
fn partitions_give_the_same_samples() {
    let all = ["16.7", "NA", "8.3", "33.3", "Error", "12.0"];
    let whole = samples(&all).unwrap();
    let mut joined = samples(&all[..3]).unwrap();
    joined.extend(samples(&all[3..]).unwrap());
    assert_eq!(whole, joined);
}

#[test]
fn parallel_and_sequential_sums_agree() {
    let ms: Vec<String> = (1..2000).map(|i| format!("{}.{}", i % 97 + 1, i % 10)).collect();
    let refs: Vec<&str> = ms.iter().map(|s| s.as_str()).collect();
    let s = samples(&refs).unwrap();
    let fps: Vec<f64> = s.iter().map(|x| 1000.0 / x.parse::<f64>().unwrap()).collect();
    let sequential = fps.iter().sum::<f64>() / fps.len() as f64;
    let parallel = fps.par_iter().sum::<f64>() / fps.len() as f64;
    assert!(((sequential - parallel) / sequential).abs() < 1e-9);
}
