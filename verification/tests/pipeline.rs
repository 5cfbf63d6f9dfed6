use taudio::err::{AudioError, ChannelBound, ChannelRange};
use taudio::id::NumericId;
use taudio::node::{AudioProcessorInfo, AudioSinkInfo, AudioSourceInfo};
use taudio::pipeline::{BatchStep, BufferId, NodeId, PipelineAudioNode, PipelineBuilder, PipelineOpts};

fn bid(n: usize) -> BufferId {
    BufferId::from_index(n - 1)
}

fn exactly(n: u32) -> ChannelRange {
    ChannelRange { start: ChannelBound::Included(n), end: ChannelBound::Included(n) }
}

/// What a test source reports on setup: the number of its outputs.
fn source_setup(num_outputs: usize) -> Result<AudioSourceInfo, AudioError> {
    Ok(AudioSourceInfo { num_outputs })
}

/// What a test processor reports on setup: it checks its input count.
fn processor_setup(
    num_inputs: usize,
    wanted_inputs: u32,
    num_outputs: usize,
) -> Result<AudioProcessorInfo, AudioError> {
    AudioError::expect_channels(exactly(wanted_inputs), num_inputs as u32)?;
    Ok(AudioProcessorInfo { num_outputs })
}

/// What a test sink reports on setup: it checks its input count.
fn sink_setup(num_inputs: usize, wanted_inputs: u32) -> Result<AudioSinkInfo, AudioError> {
    AudioError::expect_channels(exactly(wanted_inputs), num_inputs as u32)?;
    Ok(AudioSinkInfo {})
}

#[test]
fn linear_ok() -> Result<(), AudioError> {
    let opts = PipelineOpts::new(44100).unwrap();

    let mut builder = PipelineBuilder::new(opts);

    let source = builder.add_source("@test:source".to_string(), source_setup(1))?;
    let proc_inputs = vec![source.output(0)];
    let proc_setup = processor_setup(builder.processor_cfg(proc_inputs.len()).num_inputs, 1, 1);
    let proc = builder.add_processor(proc_inputs, "@test:processor".to_string(), proc_setup)?;
    let sink_inputs = vec![proc.output(0)];
    let sink_ok = sink_setup(builder.sink_cfg(sink_inputs.len()).num_inputs, 1);
    let _ = builder.add_sink(sink_inputs, "@test:sink".to_string(), sink_ok)?;

    let template = builder.into_template()?;

    assert_eq!(template.get_opts().sample_rate(), 44100);
    assert_eq!(template.num_buffers(), 2);

    let assignments = template.buffer_assignments();
    assert_eq!(assignments[0].inputs(), &[]);
    assert_eq!(assignments[0].outputs(), &[bid(1)]);

    assert_eq!(assignments[1].inputs(), &[bid(1)]);
    assert_eq!(assignments[1].outputs(), &[bid(2)]);

    assert_eq!(assignments[2].inputs(), &[bid(2)]);
    assert_eq!(assignments[2].outputs(), &[]);

    Ok(())
}

#[test]
fn pipeline_opts_reject_zero_rate() {
    assert!(PipelineOpts::new(0).is_none());
    assert_eq!(PipelineOpts::new(48000).unwrap().sample_rate(), 48000);
    assert_eq!(PipelineOpts::default().sample_rate(), 44100);
}

#[test]
fn failed_setup_adds_nothing() {
    let mut builder = PipelineBuilder::new(PipelineOpts::default());
    let source = builder.add_source("src".to_string(), source_setup(1)).unwrap();
    let setup = sink_setup(builder.sink_cfg(1).num_inputs, 2);
    let r = builder.add_sink(vec![source.output(0)], "sink".to_string(), setup);
    assert!(matches!(r, Err(AudioError::TooFewChannels { got: 1, min: 2 })));
    assert_eq!(builder.len(), 1);
}

#[test]
fn unread_output_is_a_mismatch() {
    let mut builder = PipelineBuilder::default();
    let _ = builder.add_source("lonely".to_string(), source_setup(1)).unwrap();
    match builder.into_template() {
        Err(AudioError::MismatchedChannels { node_name, got, expected }) => {
            assert_eq!(node_name, "lonely");
            assert_eq!(got, 0);
            assert_eq!(expected, 1);
        }
        other => panic!("expected a mismatch, got {other:?}"),
    }
}

#[test]
fn buffers_are_reused_once_read() {
    // a -> b -> c, and a second chain d -> e: each connection needs a buffer
    // only while it is live.
    let mut builder = PipelineBuilder::new(PipelineOpts::default());
    let a = builder.add_source("a".to_string(), source_setup(1)).unwrap();
    let b = builder
        .add_processor(vec![a.output(0)], "b".to_string(), processor_setup(1, 1, 1))
        .unwrap();
    let _c = builder.add_sink(vec![b.output(0)], "c".to_string(), sink_setup(1, 1)).unwrap();
    let template = builder.into_template().unwrap();
    assert_eq!(template.num_buffers(), 2);
    assert_eq!(template.topological_order(), &vec![NodeId::from_index(0), NodeId::from_index(1), NodeId::from_index(2)]);
}

#[test]
fn construct_orders_the_nodes() {
    let mut builder = PipelineBuilder::new(PipelineOpts::default());
    let a = builder.add_source("a".to_string(), source_setup(1)).unwrap();
    let b = builder.add_source("b".to_string(), source_setup(1)).unwrap();
    let _s = builder
        .add_sink(vec![a.output(0), b.output(0)], "s".to_string(), sink_setup(2, 2))
        .unwrap();
    let mut pipeline = builder.build().unwrap();
    assert_eq!(pipeline.num_buffers(), 2);
    assert_eq!(pipeline.nodes().len(), 3);
    let ia = pipeline.node_index(a).unwrap();
    let ib = pipeline.node_index(b).unwrap();
    assert!(ia < 2 && ib < 2 && ia != ib);
    assert!(matches!(pipeline.get_node(a), Some(PipelineAudioNode::Source { .. })));
    assert_eq!(pipeline.node_index(NodeId::from_index(5)), None);
    assert_eq!(pipeline.current_sample_offset(), 0);
    let ctx = pipeline.batch_context(128);
    assert_eq!(ctx.get_samples_per_second(), 44100);
    assert_eq!(ctx.get_batch_start(), 0);
    assert_eq!(ctx.batch_size(), 128);
    pipeline.advance(128);
    assert_eq!(pipeline.current_sample_offset(), 128);
    assert_eq!(pipeline.batch_context(64).get_batch_start(), 128);
    let assignments = pipeline.buffer_assignments();
    let wa = assignments[0].outputs()[0];
    let wb = assignments[1].outputs()[0];
    assert_ne!(wa, wb);
    assert_eq!(assignments[2].inputs(), &[wa, wb]);
}

#[test]
fn forward_layout_is_wired_without_aliasing() {
    // s1 has two outputs, s2 one; p reads s1.0 and s2.0; k reads s1.1 and p.0.
    let mut builder = PipelineBuilder::new(PipelineOpts::default());
    let s1 = builder.add_source("s1".to_string(), source_setup(2)).unwrap();
    let s2 = builder.add_source("s2".to_string(), source_setup(1)).unwrap();
    let p = builder
        .add_processor(vec![s1.output(0), s2.output(0)], "p".to_string(), processor_setup(2, 2, 1))
        .unwrap();
    let k = builder
        .add_sink(vec![s1.output(1), p.output(0)], "k".to_string(), sink_setup(2, 2))
        .unwrap();
    let template = builder.into_template().unwrap();
    let a = template.buffer_assignments();
    let (is1, is2, ip, ik) = (s1.as_index(), s2.as_index(), p.as_index(), k.as_index());

    // Every input reads the buffer its source writes.
    assert_eq!(a[ip].inputs()[0], a[is1].outputs()[0]);
    assert_eq!(a[ip].inputs()[1], a[is2].outputs()[0]);
    assert_eq!(a[ik].inputs()[0], a[is1].outputs()[1]);
    assert_eq!(a[ik].inputs()[1], a[ip].outputs()[0]);

    // s1.1 is live from s1's turn to k's, so it overlaps every other connection.
    let held = a[ik].inputs()[0];
    assert_ne!(held, a[ip].inputs()[0]);
    assert_ne!(held, a[ip].inputs()[1]);
    assert_ne!(held, a[ik].inputs()[1]);
    // p reads both of its inputs at once.
    assert_ne!(a[ip].inputs()[0], a[ip].inputs()[1]);
    // p writes its output while it reads its inputs.
    assert_ne!(a[ip].outputs()[0], a[ip].inputs()[0]);
    assert_ne!(a[ip].outputs()[0], a[ip].inputs()[1]);
    // At p's turn all four connections are live, and no turn has more.
    assert_eq!(template.num_buffers(), 4);
    for assignment in a.iter() {
        for b in assignment.inputs().iter().chain(assignment.outputs().iter()) {
            assert!(b.as_index() < template.num_buffers());
        }
    }
}

#[test]
fn a_long_chain_reuses_two_buffers() {
    let mut builder = PipelineBuilder::new(PipelineOpts::default());
    let mut last = builder.add_source("head".to_string(), source_setup(1)).unwrap();
    for i in 0..5 {
        last = builder
            .add_processor(vec![last.output(0)], format!("p{i}"), processor_setup(1, 1, 1))
            .unwrap();
    }
    let _tail = builder.add_sink(vec![last.output(0)], "tail".to_string(), sink_setup(1, 1)).unwrap();
    let template = builder.into_template().unwrap();
    assert_eq!(template.num_buffers(), 2);
    let a = template.buffer_assignments();
    for v in 1..a.len() {
        assert_eq!(a[v].inputs()[0], a[v - 1].outputs()[0]);
    }
}

#[test]
fn stereo_reads_of_one_source_are_wired() {
    // Each input of `k` reads its own output of `s`; both are live at once.
    let mut builder = PipelineBuilder::new(PipelineOpts::default());
    let s = builder.add_source("s".to_string(), source_setup(2)).unwrap();
    let k = builder.add_sink(vec![s.output(0), s.output(1)], "k".to_string(), sink_setup(2, 2)).unwrap();
    let template = builder.into_template().unwrap();
    let a = template.buffer_assignments();
    let (is, ik) = (s.as_index(), k.as_index());
    assert_eq!(template.num_buffers(), 2);
    assert_eq!(a[is].outputs(), &[bid(1), bid(2)]);
    assert_eq!(a[ik].inputs(), &[bid(1), bid(2)]);
}

#[test]
fn a_node_without_connections_still_runs() {
    let mut builder = PipelineBuilder::new(PipelineOpts::default());
    let s = builder.add_source("lonely".to_string(), source_setup(0)).unwrap();
    let template = builder.into_template().unwrap();
    assert_eq!(template.topological_order(), &vec![s]);
    assert_eq!(template.num_buffers(), 0);
    let pipeline = template.construct();
    assert_eq!(pipeline.node_index(s), Some(0));
    assert!(matches!(pipeline.get_node(s), Some(PipelineAudioNode::Source { .. })));
}

#[test]
fn a_trailing_unconnected_node_is_ordered_too() {
    let mut builder = PipelineBuilder::new(PipelineOpts::default());
    let a = builder.add_source("a".to_string(), source_setup(1)).unwrap();
    let _k = builder.add_sink(vec![a.output(0)], "k".to_string(), sink_setup(1, 1)).unwrap();
    let lone = builder.add_source("lone".to_string(), source_setup(0)).unwrap();
    let pipeline = builder.build().unwrap();
    assert_eq!(pipeline.nodes().len(), 3);
    assert!(pipeline.node_index(lone).is_some());
}

#[test]
fn layout_in_range_accepts_a_built_chain() {
    let mut builder = PipelineBuilder::new(PipelineOpts::default());
    let s = builder.add_source("s".to_string(), source_setup(1)).unwrap();
    let _k = builder.add_sink(vec![s.output(0)], "k".to_string(), sink_setup(1, 1)).unwrap();
    assert!(builder.layout_in_range());
}

#[test]
fn layout_in_range_rejects_a_missing_node() {
    let mut builder = PipelineBuilder::new(PipelineOpts::default());
    let _k = builder
        .add_sink(vec![NodeId::from_index(3).output(0)], "k".to_string(), sink_setup(1, 1))
        .unwrap();
    assert!(!builder.layout_in_range());
}

#[test]
fn layout_in_range_rejects_a_missing_output_once_counts_match() {
    let mut builder = PipelineBuilder::new(PipelineOpts::default());
    let s = builder.add_source("s".to_string(), source_setup(1)).unwrap();
    let _k = builder.add_sink(vec![s.output(4)], "k".to_string(), sink_setup(1, 1)).unwrap();
    assert!(!builder.layout_in_range());
}

#[test]
fn layout_in_range_ignores_outputs_when_counts_differ() {
    let mut builder = PipelineBuilder::new(PipelineOpts::default());
    let s = builder.add_source("s".to_string(), source_setup(2)).unwrap();
    let _k = builder.add_sink(vec![s.output(4)], "k".to_string(), sink_setup(1, 1)).unwrap();
    assert!(builder.layout_in_range());
}

#[test]
fn a_node_reading_a_later_node_is_wired() {
    // The sink is added first and reads the source added after it.
    let mut builder = PipelineBuilder::new(PipelineOpts::default());
    let k = builder
        .add_sink(vec![NodeId::from_index(1).output(0)], "k".to_string(), sink_setup(1, 1))
        .unwrap();
    let s = builder.add_source("s".to_string(), source_setup(1)).unwrap();
    assert!(builder.layout_in_range());
    let template = builder.into_template().unwrap();
    assert_eq!(template.topological_order(), &vec![s, k]);
    assert_eq!(template.num_buffers(), 1);
    let a = template.buffer_assignments();
    assert_eq!(a[s.as_index()].outputs(), &[bid(1)]);
    assert_eq!(a[k.as_index()].inputs(), &[bid(1)]);
}

#[test]
fn batch_steps_run_each_node_then_advance() {
    let mut builder = PipelineBuilder::new(PipelineOpts::default());
    let s = builder.add_source("s".to_string(), source_setup(1)).unwrap();
    let _k = builder.add_sink(vec![s.output(0)], "k".to_string(), sink_setup(1, 1)).unwrap();
    let mut pipeline = builder.build().unwrap();
    assert_eq!(pipeline.batch_step(0, true, 64), BatchStep::Run(0));
    assert_eq!(pipeline.batch_step(1, true, 64), BatchStep::Run(1));
    assert_eq!(pipeline.current_sample_offset(), 0);
    assert_eq!(pipeline.batch_step(1, false, 64), BatchStep::Abort);
    assert_eq!(pipeline.current_sample_offset(), 0);
    assert_eq!(pipeline.batch_step(2, true, 64), BatchStep::Done);
    assert_eq!(pipeline.current_sample_offset(), 64);
}
