use taudio::err::ChannelBound::{Excluded, Included, Unbounded};
use taudio::err::{AudioError, ChannelBound, ChannelRange};

fn range(start: ChannelBound, end: ChannelBound) -> ChannelRange {
    ChannelRange { start, end }
}

#[test]
fn expect_channels() {
    assert!(matches!(AudioError::expect_channels(range(Unbounded, Unbounded), 23), Ok(())));

    assert!(matches!(
        AudioError::expect_channels(range(Included(1), Included(4)), 5).unwrap_err(),
        AudioError::TooManyChannels { got: 5, max: 4 }
    ));

    assert!(matches!(
        AudioError::expect_channels(range(Included(1), Excluded(4)), 5).unwrap_err(),
        AudioError::TooManyChannels { got: 5, max: 3 }
    ));

    assert!(matches!(
        AudioError::expect_channels(range(Included(1), Excluded(4)), 0).unwrap_err(),
        AudioError::TooFewChannels { got: 0, min: 1 }
    ));
}

#[test]
fn expect_channels_at_the_ends() {
    assert!(AudioError::expect_channels(range(Included(1), Included(4)), 1).is_ok());
    assert!(AudioError::expect_channels(range(Included(1), Included(4)), 4).is_ok());
    assert!(matches!(
        AudioError::expect_channels(range(Included(1), Excluded(4)), 4).unwrap_err(),
        AudioError::TooManyChannels { got: 4, max: 3 }
    ));
    assert!(matches!(
        AudioError::expect_channels(range(Excluded(2), Unbounded), 2).unwrap_err(),
        AudioError::TooFewChannels { got: 2, min: 3 }
    ));
    assert!(AudioError::expect_channels(range(Excluded(2), Unbounded), 3).is_ok());
    assert!(AudioError::expect_channels(range(Unbounded, Included(0)), 0).is_ok());
}

#[test]
fn expect_channels_empty_range_reports_the_lower_end_first() {
    assert!(matches!(
        AudioError::expect_channels(range(Included(5), Included(3)), 4).unwrap_err(),
        AudioError::TooFewChannels { got: 4, min: 5 }
    ));
    assert!(matches!(
        AudioError::expect_channels(range(Included(5), Included(3)), 6).unwrap_err(),
        AudioError::TooManyChannels { got: 6, max: 3 }
    ));
}

#[test]
fn expect_channels_empty_range_below_zero_reports_the_lower_end() {
    assert!(matches!(
        AudioError::expect_channels(range(Included(5), Excluded(0)), 3).unwrap_err(),
        AudioError::TooFewChannels { got: 3, min: 5 }
    ));
}
