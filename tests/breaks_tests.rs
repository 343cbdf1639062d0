use retained_ui::breaks::{paragraph_spans, run_index, BreakIter, DwSinkSpans, RawSpan, ScriptAnalysis};

#[test]
fn walks_set_bits_in_order() {
    // bits 3, 31, 32 and 40 set
    let options = [(1u32 << 3) | (1u32 << 31), 1u32 | (1u32 << 8)];
    let mut it = BreakIter { at: 0, end: 50 };
    assert_eq!(it.next(&options), 3);
    assert_eq!(it.next(&options), 31);
    assert_eq!(it.next(&options), 32);
    assert_eq!(it.next(&options), 40);
    assert_eq!(it.next(&options), 50);
    assert_eq!(it.next(&options), 50);
}

#[test]
fn stops_at_end() {
    let options = [1u32 << 10];
    let mut it = BreakIter { at: 2, end: 8 };
    assert_eq!(it.next(&options), 8);
    assert_eq!(it.at, 8);
}

#[test]
fn sink_fills_runs() {
    let mut sink = DwSinkSpans {
        begin: 10,
        is_rtls: vec![false; 6],
        scripts: vec![ScriptAnalysis { script: 0, shapes: 0 }; 6],
    };
    sink.set_bidi(12, 3, true);
    assert_eq!(sink.is_rtls, vec![false, false, true, true, true, false]);
    let latin = ScriptAnalysis { script: 49, shapes: 1 };
    sink.set_script(10, 2, latin);
    assert_eq!(sink.scripts[0], latin);
    assert_eq!(sink.scripts[1], latin);
    assert_eq!(sink.scripts[2].script, 0);
}

#[test]
fn run_index_counts_ends_at_or_below() {
    let ends = vec![3u32, 4, 9];
    assert_eq!(run_index(&ends, 0), 0);
    assert_eq!(run_index(&ends, 2), 0);
    assert_eq!(run_index(&ends, 3), 1);
    assert_eq!(run_index(&ends, 4), 2);
    assert_eq!(run_index(&ends, 9), 3);
}

#[test]
fn spans_split_on_direction_script_and_format() {
    let latin = ScriptAnalysis { script: 1, shapes: 0 };
    let arabic = ScriptAnalysis { script: 2, shapes: 0 };
    // units 5..12 of the text; bytes equal units here
    let sink = DwSinkSpans {
        begin: 5,
        is_rtls: vec![false, false, false, true, true, false, false],
        scripts: vec![latin, latin, latin, arabic, arabic, latin, latin],
    };
    let to_utf8: Vec<u32> = (0..13).collect();
    // format runs end at bytes 7, 8 and 20; the second run is an object
    let run_ends = vec![7u32, 8, 20];
    let run_objects = vec![None, Some(0u32), None];
    let spans = paragraph_spans(&sink, 12, &to_utf8, &run_ends, &run_objects);
    let expect = vec![
        RawSpan { begin: 5, end: 7, format_run: 0, object_index: None, is_rtl: false, script: latin },
        RawSpan { begin: 7, end: 8, format_run: 1, object_index: Some(0), is_rtl: false, script: latin },
        RawSpan { begin: 8, end: 10, format_run: 2, object_index: None, is_rtl: true, script: arabic },
        RawSpan { begin: 10, end: 12, format_run: 2, object_index: None, is_rtl: false, script: latin },
    ];
    assert_eq!(spans, expect);
}

#[test]
fn one_unit_paragraph_is_one_span() {
    let s = ScriptAnalysis { script: 0, shapes: 0 };
    let sink = DwSinkSpans { begin: 0, is_rtls: vec![false], scripts: vec![s] };
    let spans = paragraph_spans(&sink, 1, &vec![0, 1], &vec![], &vec![]);
    assert_eq!(spans.len(), 1);
    assert_eq!((spans[0].begin, spans[0].end, spans[0].format_run), (0, 1, 0));
}
