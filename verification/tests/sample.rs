use taudio::sample::{Dyn, Float32, Int16, Int32, Int8, SampleType, Sealed};

#[test]
fn sample_sizes() {
    assert_eq!(Int8.size_of(), 1);
    assert_eq!(Int16.size_of(), 2);
    assert_eq!(Int32.size_of(), 4);
    assert_eq!(Float32.size_of(), 4);
}

#[test]
fn dyn_sample_takes_the_size_of_its_type() {
    assert_eq!(Dyn(SampleType::Int8).size_of(), 1);
    assert_eq!(Dyn(SampleType::Int16).size_of(), 2);
    assert_eq!(Dyn(SampleType::Int32).size_of(), 4);
    assert_eq!(Dyn(SampleType::Float32).size_of(), 4);
}
