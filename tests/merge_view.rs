use std::ops::Range;

use binmerge::app_ctx::{AppCtx, Decision};
use binmerge::apply::{copy_chunk_len, COPY_BUF_LEN};
use binmerge::diff_iter::diff_bytes;
use binmerge::diff_view::{byte_style, hex_width, shown_char, ApplyChangesPopup, ByteStyle, DiffView, QuitPopup};
use binmerge::layers::{AppEvent, Key, Layer, LayerChange, LayerCtx, Layers};
use binmerge::popup::{PopupKind, PopupYesNo};
use binmerge::range_tree::RangeTree;

fn ctx_with(len: u64, diffs: &[Range<u64>]) -> AppCtx {
    let mut c = AppCtx::new(String::from("left"), String::from("right"), len);
    for d in diffs {
        c.add_diff(d.clone());
    }
    c
}

fn layers_with(len: u64, diffs: &[Range<u64>]) -> Layers {
    let mut l = Layers::new(ctx_with(len, diffs));
    l.push_layer(Layer::Diff(DiffView::new()));
    l
}

fn press(l: &mut Layers, keys: &str) {
    for k in keys.chars() {
        l.handle_key_event(Key::Char(k));
    }
}

fn decisions(c: &AppCtx, r: Range<u64>) -> (bool, bool, bool) {
    (
        c.merges_1_into_2.contains_range_exact(r.clone()),
        c.merges_2_into_1.contains_range_exact(r.clone()),
        c.leave_unmerged.contains_range_exact(r),
    )
}

/// Copies the decided ranges between two in-memory files, the way the
/// program copies them between the real files.
fn apply(a: &mut Vec<u8>, b: &mut Vec<u8>, c: &mut AppCtx) {
    let (into_1, into_2) = c.take_merges();
    for r in into_1 {
        for o in r.start..r.end {
            a[o as usize] = b[o as usize];
        }
    }
    for r in into_2 {
        for o in r.start..r.end {
            b[o as usize] = a[o as usize];
        }
    }
}

#[test]
fn single_diff_merged_right_then_gone() {
    let a: Vec<u8> = (0..16).collect();
    let mut b = a.clone();
    b[5] = 0xff;
    let diffs = diff_bytes(&a, &b);
    assert_eq!(diffs, vec![5..6]);
    let mut l = layers_with(16, &diffs);
    press(&mut l, "n>");
    assert!(l.ctx().merges_1_into_2.contains_range_exact(5..6));
    let (mut a2, mut b2) = (a.clone(), b.clone());
    apply(&mut a2, &mut b2, l.ctx());
    assert_eq!(b2[5], a[5]);
    assert_eq!(a2, a);
    assert!(diff_bytes(&a2, &b2).is_empty());
}

#[test]
fn identical_files_leave_nothing_to_do() {
    let a = vec![0u8; 1 << 20];
    let b = vec![0u8; 1 << 20];
    let diffs = diff_bytes(&a, &b);
    let mut l = layers_with(1 << 20, &diffs);
    press(&mut l, "n><=");
    let c = l.ctx();
    assert!(c.merges_1_into_2.is_empty() && c.merges_2_into_1.is_empty() && c.leave_unmerged.is_empty());
    assert_eq!(c.current_diff_index, None);
    let (into_1, into_2) = c.take_merges();
    assert!(into_1.is_empty() && into_2.is_empty());
}

#[test]
fn interleaved_classification() {
    let mut l = layers_with(16, &[3..5, 10..12]);
    press(&mut l, "n");
    assert_eq!(l.ctx().current_diff_index, Some(0));
    press(&mut l, ">");
    assert_eq!(decisions(l.ctx(), 3..5), (true, false, false));
    press(&mut l, "<");
    assert_eq!(decisions(l.ctx(), 3..5), (false, true, false));
    press(&mut l, "=");
    assert_eq!(decisions(l.ctx(), 3..5), (false, false, true));
    press(&mut l, "!");
    assert_eq!(decisions(l.ctx(), 3..5), (false, false, false));
    assert_eq!(decisions(l.ctx(), 10..12), (false, false, false));
}

#[test]
fn deciding_twice_keeps_one_copy() {
    let mut l = layers_with(16, &[3..5]);
    press(&mut l, "n>>");
    assert_eq!(l.ctx().merges_1_into_2.len(), 1);
    press(&mut l, "==");
    assert_eq!(l.ctx().leave_unmerged.len(), 1);
    assert!(l.ctx().merges_1_into_2.is_empty());
}

#[test]
fn navigation_wraps_round() {
    let mut c = ctx_with(4096, &[3..5, 100..110, 2000..2001]);
    c.current_diff_index = Some(2);
    c.next_diff();
    assert_eq!(c.current_diff_index, Some(0));
    c.prev_diff();
    assert_eq!(c.current_diff_index, Some(2));
    c.prev_diff();
    assert_eq!(c.current_diff_index, Some(1));
}

#[test]
fn navigation_without_diffs_selects_nothing() {
    let mut c = ctx_with(4096, &[]);
    c.next_diff();
    assert_eq!(c.current_diff_index, None);
    c.prev_diff();
    assert_eq!(c.current_diff_index, None);
    c.pos = 32;
    c.next_diff();
    assert_eq!(c.pos, 32);
}

#[test]
fn first_step_back_selects_last_diff() {
    let mut c = ctx_with(4096, &[3..5, 100..110, 2000..2001]);
    c.prev_diff();
    assert_eq!(c.current_diff_index, Some(2));
}

#[test]
fn moving_keeps_viewport_on_rows() {
    let mut l = layers_with(1000, &[]);
    l.ctx().set_shown_data_height(10);
    let keys = [Key::Down, Key::Down, Key::PageDown, Key::Up, Key::PageDown, Key::PageDown, Key::PageUp, Key::Up];
    for k in keys {
        l.handle_key_event(k);
        assert_eq!(l.ctx().pos % 16, 0);
    }
}

#[test]
fn moving_down_stops_at_last_page() {
    // 1000 bytes round up to 1008; ten rows show 160 bytes
    let mut c = ctx_with(1000, &[]);
    c.set_shown_data_height(10);
    c.increase_pos(16);
    assert_eq!(c.pos, 16);
    c.increase_pos(160);
    assert_eq!(c.pos, 176);
    c.increase_pos(16000);
    assert_eq!(c.pos, 848);
    c.decrease_pos(160);
    assert_eq!(c.pos, 688);
    c.decrease_pos(16000);
    assert_eq!(c.pos, 0);
}

#[test]
fn taller_viewport_pulls_position_up() {
    let mut c = ctx_with(1000, &[]);
    c.set_shown_data_height(10);
    c.increase_pos(16000);
    assert_eq!(c.pos, 848);
    c.set_shown_data_height(20);
    assert_eq!(c.pos, 688);
    c.set_shown_data_height(100);
    assert_eq!(c.pos, 0);
}

#[test]
fn centering_on_small_and_large_diffs() {
    let mut c = ctx_with(100_000, &[5000..5010, 20000..30000]);
    c.set_shown_data_height(20);
    // 320 bytes shown; a 10-byte diff fits: 5000 - (320 - 10) / 2 = 4845, down to 4832
    c.next_diff();
    assert_eq!(c.pos, 4832);
    // too large to fit: two rows above its start
    c.next_diff();
    assert_eq!(c.pos, 19968);
}

#[test]
fn centering_near_the_end_stays_in_the_file() {
    let mut c = ctx_with(1000, &[990..995]);
    c.set_shown_data_height(10);
    c.next_diff();
    assert_eq!(c.pos, 848);
}

#[test]
fn quitting_without_decisions_exits() {
    let mut l = layers_with(16, &[3..5]);
    press(&mut l, "q");
    assert!(l.ctx().exit);
    assert_eq!(l.layers().len(), 1);
}

#[test]
fn quitting_with_decisions_asks_first() {
    let mut l = layers_with(16, &[3..5, 10..12]);
    press(&mut l, "n>q");
    assert!(!l.ctx().exit);
    assert_eq!(l.layers().len(), 2);
    assert_eq!(
        l.layers()[1],
        Layer::Popup(PopupYesNo { kind: PopupKind::Quit { unapplied: 1 }, yes_selected: false })
    );
    // NO is selected: Enter only closes the question
    l.handle_key_event(Key::Enter);
    assert_eq!(l.layers().len(), 1);
    assert!(!l.ctx().exit);
    press(&mut l, "q");
    l.handle_key_event(Key::Left);
    l.handle_key_event(Key::Enter);
    assert!(l.ctx().exit);
    assert_eq!(l.layers().len(), 1);
}

#[test]
fn leaving_unmerged_alone_still_asks_before_quitting() {
    let mut l = layers_with(16, &[3..5]);
    press(&mut l, "n=q");
    assert!(!l.ctx().exit);
    assert_eq!(
        l.layers()[1],
        Layer::Popup(PopupYesNo { kind: PopupKind::Quit { unapplied: 0 }, yes_selected: false })
    );
}

#[test]
fn popup_cancel_keys_close_it() {
    let mut l = layers_with(16, &[3..5]);
    press(&mut l, "n<a");
    assert_eq!(l.layers().len(), 2);
    l.handle_key_event(Key::Esc);
    assert_eq!(l.layers().len(), 1);
    press(&mut l, "w");
    assert_eq!(l.layers().len(), 2);
    l.handle_key_event(Key::Right);
    press(&mut l, "q");
    assert_eq!(l.layers().len(), 1);
    assert!(!l.ctx().apply_requested);
    assert!(!l.ctx().exit);
}

#[test]
fn popup_blocks_keys_to_the_view() {
    let mut l = layers_with(16, &[3..5]);
    press(&mut l, "n>a");
    press(&mut l, "!<n");
    assert!(l.ctx().merges_1_into_2.contains_range_exact(3..5));
}

#[test]
fn apply_question_counts_decisions() {
    let mut l = layers_with(64, &[1..2, 3..4, 5..6, 7..8, 9..10]);
    press(&mut l, "n>n<n=n");
    press(&mut l, "a");
    assert_eq!(
        l.layers()[1],
        Layer::Popup(PopupYesNo {
            kind: PopupKind::ApplyChanges {
                merged_left: 1,
                merged_right: 1,
                unchanged: 1,
                unmerged: 2,
                total: 5,
                complete: false,
            },
            yes_selected: false,
        })
    );
    l.handle_key_event(Key::Right);
    l.handle_key_event(Key::Enter);
    assert!(l.ctx().apply_requested);
    assert_eq!(l.layers().len(), 1);
}

#[test]
fn popup_builders_read_the_state() {
    let mut c = ctx_with(64, &[1..2, 3..4]);
    c.next_diff();
    c.classify(Decision::MergeLeft);
    c.all_diffs_loaded = true;
    assert_eq!(QuitPopup::new(&c).kind, PopupKind::Quit { unapplied: 1 });
    assert_eq!(
        ApplyChangesPopup::new(&c).kind,
        PopupKind::ApplyChanges { merged_left: 1, merged_right: 0, unchanged: 0, unmerged: 1, total: 2, complete: true }
    );
    assert_eq!(c.decided_count(), 1);
    assert_eq!(c.undecided_count(), 1);
}

#[test]
fn applying_leaves_exactly_the_unmerged_diffs() {
    let a: Vec<u8> = (0..64).map(|i| i as u8).collect();
    let mut b = a.clone();
    for o in [2usize, 3, 10, 20, 21, 22, 40, 63] {
        b[o] = 0xaa;
    }
    let diffs = diff_bytes(&a, &b);
    assert_eq!(diffs, vec![2..4, 10..11, 20..23, 40..41, 63..64]);
    let mut l = layers_with(64, &diffs);
    // first > , second < , third = , fourth left alone, fifth >
    press(&mut l, "n>n<n=nn>");
    let (mut a2, mut b2) = (a.clone(), b.clone());
    apply(&mut a2, &mut b2, l.ctx());
    assert_eq!(diff_bytes(&a2, &b2), vec![20..23, 40..41]);
    assert_eq!(a2[10], b[10]);
    assert_eq!(b2[2], a[2]);
    assert_eq!(b2[63], a[63]);
}

#[test]
fn events_feed_the_state() {
    let mut l = layers_with(64, &[]);
    l.handle_event(AppEvent::Diff(1..3));
    l.handle_event(AppEvent::Diff(8..9));
    assert_eq!(l.ctx().diffs.len(), 2);
    assert!(!l.ctx().all_diffs_loaded);
    l.handle_event(AppEvent::DiffsDone);
    assert!(l.ctx().all_diffs_loaded);
    l.handle_event(AppEvent::Key(Key::Char('n')));
    assert_eq!(l.ctx().current_diff_index, Some(0));
}

#[test]
fn layer_changes_apply_in_order() {
    let mut l = Layers::new(ctx_with(16, &[]));
    let quit = Layer::Popup(PopupYesNo::new(PopupKind::Quit { unapplied: 0 }));
    l.apply_layer_changes(vec![
        LayerChange::Push(Layer::Diff(DiffView::new())),
        LayerChange::Push(quit),
        LayerChange::Pop,
        LayerChange::Pop,
        LayerChange::Pop,
        LayerChange::Push(Layer::Diff(DiffView::new())),
        LayerChange::Push(quit),
    ]);
    assert_eq!(l.layers(), &vec![Layer::Diff(DiffView::new()), quit]);
    l.pop_layer();
    l.pop_layer();
    assert_eq!(l.layers().len(), 0);
    l.handle_key_event(Key::Char('q'));
    assert!(!l.ctx().exit);
    let mut asked = LayerCtx::new();
    asked.push_layer(quit);
    asked.pop_layer();
}

#[test]
fn byte_colours_follow_precedence() {
    let diffs = RangeTree::from_vec(vec![0..2, 4..6, 8..10, 12..14]);
    let into_this = RangeTree::from_vec(vec![0..2]);
    let from_this = RangeTree::from_vec(vec![4..6]);
    let unmerged = RangeTree::from_vec(vec![8..10]);
    let current = 4..6;
    let style = |p: u64| byte_style(p, &current, &diffs, &into_this, &from_this, &unmerged);
    assert_eq!(style(1), (ByteStyle::MergedIntoThis, false));
    assert_eq!(style(5), (ByteStyle::MergedFromThis, true));
    assert_eq!(style(8), (ByteStyle::LeaveUnmerged, false));
    assert_eq!(style(13), (ByteStyle::Diff, false));
    assert_eq!(style(2), (ByteStyle::Equal, false));
    assert_eq!(style(6), (ByteStyle::Equal, false));
}

#[test]
fn text_pane_characters() {
    assert_eq!(shown_char(b'a'), 'a');
    assert_eq!(shown_char(b' '), ' ');
    assert_eq!(shown_char(b'~'), '~');
    assert_eq!(shown_char(b'\\'), '.');
    assert_eq!(shown_char(b'"'), '.');
    assert_eq!(shown_char(b'\''), '.');
    assert_eq!(shown_char(b'\n'), '.');
    assert_eq!(shown_char(0x7f), '.');
    assert_eq!(shown_char(0xc3), '.');
}

#[test]
fn gutter_width_in_hex_digits() {
    assert_eq!(hex_width(0), 1);
    assert_eq!(hex_width(15), 1);
    assert_eq!(hex_width(16), 2);
    assert_eq!(hex_width(0xfff), 3);
    assert_eq!(hex_width(0x1000), 4);
    assert_eq!(hex_width(u64::MAX), 16);
}

#[test]
fn copy_pieces_are_bounded() {
    assert_eq!(copy_chunk_len(5, 6), 1);
    assert_eq!(copy_chunk_len(0, 100), 100);
    assert_eq!(copy_chunk_len(0, u64::MAX), COPY_BUF_LEN);
    assert_eq!(COPY_BUF_LEN, 8 * 1024 * 1024);
}
