use kson_editor::chart::{DoubleEvent, Interval};
use kson_editor::ksh::{chart_from_ksh_text, KshParseError};

fn import(text: &[u8]) -> Result<kson_editor::chart::Chart, KshParseError> {
    chart_from_ksh_text(&text.to_vec())
}

#[test]
fn importer_reads_button_measure() {
    // One measure of four rows at resolution 240: each row consumes
    // 240 * 4 / 4 ticks. Lane 0 sees 1, 2, 2, 0: a tap at the start, then
    // a hold from the first 2 to the first non-2.
    let chart = import(b"title=x\n--\n1000|\n2000|\n2000|\n0000|\n").unwrap();
    assert_eq!(
        chart.note.bt[0].as_slice(),
        &[Interval { y: 0, l: 0 }, Interval { y: 240, l: 480 }]
    );
    for lane in 1..4 {
        assert!(chart.note.bt[lane].is_empty());
    }
    assert_eq!(chart.beat.resolution, 240);
    assert!(chart.wf_check());
}

#[test]
fn importer_carries_holds_across_measures() {
    let chart = import(b"t=120\n--\n1000|\n2000|\n--\n2000|\n0000|\n").unwrap();
    assert_eq!(
        chart.note.bt[0].as_slice(),
        &[Interval { y: 0, l: 0 }, Interval { y: 480, l: 960 }]
    );
    assert!(chart.wf_check());
}

#[test]
fn importer_reads_metadata() {
    let chart =
        import(b"title=Song\nartist=Me\neffect=Fx\njacket=j.png\nillustrator=Ill\nt=120.5\nzzz=1\nnoequals\n--\n")
            .unwrap();
    assert_eq!(chart.meta.title.as_slice(), b"Song");
    assert_eq!(chart.meta.artist.as_slice(), b"Me");
    assert_eq!(chart.meta.chart_author.as_slice(), b"Fx");
    assert_eq!(chart.meta.jacket_filename.as_slice(), b"j.png");
    assert_eq!(chart.meta.jacket_author.as_slice(), b"Ill");
    assert_eq!(chart.beat.bpm.as_slice(), &[DoubleEvent { y: 0, v: 120500 }]);
}

#[test]
fn importer_rejects_bad_bpm() {
    assert_eq!(import(b"t=12x\n--\n"), Err(KshParseError::BadBpm { line: 0 }));
    assert_eq!(import(b"title=a\nt=\n"), Err(KshParseError::BadBpm { line: 1 }));
}

#[test]
fn importer_ignores_bpm_ranges() {
    let chart = import(b"t=120-180\n--\n").unwrap();
    assert!(chart.beat.bpm.is_empty());
}

#[test]
fn importer_skips_measures_without_note_rows() {
    // The comment-only measure advances no ticks, so the tap of the next
    // measure still lands on tick 0.
    let chart = import(b"t=120\n--\ncomment measure\n--\n1000|\n").unwrap();
    assert_eq!(chart.note.bt[0].as_slice(), &[Interval { y: 0, l: 0 }]);
}

#[test]
fn importer_keeps_bpm_whole_numbers_exact() {
    let chart = import(b"t=185\n--\n").unwrap();
    assert_eq!(chart.beat.bpm.as_slice(), &[DoubleEvent { y: 0, v: 185000 }]);
    let chart = import(b"t=99.4375\n--\n").unwrap();
    // fractional digits past the third are dropped
    assert_eq!(chart.beat.bpm.as_slice(), &[DoubleEvent { y: 0, v: 99437 }]);
}

#[test]
fn importer_accepts_empty_text() {
    let chart = import(b"").unwrap();
    assert!(chart.wf_check());
    assert!(chart.meta.title.is_empty());
    assert!(chart.note.bt.iter().all(|l| l.is_empty()));
}
