use velodyne::timing::{firing_time, Duration};

#[test]
fn from_manual() {
    let sequence_index = 23;
    let data_point_index = 15;
    let timestamp = Duration::microseconds(45_231_878);
    assert_eq!(
        45_233_184_368,
        firing_time(timestamp, sequence_index, data_point_index).num_nanoseconds()
    );
}

#[test]
fn first_firing_is_the_timestamp() {
    let timestamp = Duration::microseconds(12);
    assert_eq!(timestamp, firing_time(timestamp, 0, 0));
    assert_eq!(12_000 + 55_296, firing_time(timestamp, 1, 0).num_nanoseconds());
    assert_eq!(12_000 + 2_304, firing_time(timestamp, 0, 1).num_nanoseconds());
    assert_eq!(-5, Duration::nanoseconds(-5).num_nanoseconds());
}
