use wrecked::ansi::build_ansi_string;
use wrecked::error::{cast_result, color_from_number};
use wrecked::order::sort_cells;
use wrecked::{Color, EffectsHandler, RectManager, WreckedError, ROOT};

/// A manager whose ROOT is `w` by `h`.
fn sized_manager(w: u16, h: u16) -> RectManager {
    let mut rectmanager = RectManager::new();
    rectmanager.auto_resize(w, h);
    rectmanager
}

fn bold() -> EffectsHandler {
    let mut e = EffectsHandler::new();
    e.bold = true;
    e
}

// ---- examples from the documentation ----

#[test]
fn orphan_has_no_parent() {
    let mut rectmanager = RectManager::new();
    let orphan_id = rectmanager.new_orphan().ok().unwrap();
    assert!(!rectmanager.has_parent(orphan_id));
    assert!(rectmanager.has_rect(orphan_id));
}

#[test]
fn character_reads_back() {
    let mut rectmanager = RectManager::new();
    rectmanager.set_character(ROOT, 0, 0, 'X').unwrap();
    assert_eq!(rectmanager.get_character(ROOT, 0, 0).ok().unwrap(), 'X');
}

#[test]
fn absolute_offset_adds_up() {
    let mut rectmanager = sized_manager(25, 25);
    let rect_a = rectmanager.new_rect(ROOT).ok().unwrap();
    let rect_b = rectmanager.new_rect(rect_a).ok().unwrap();
    rectmanager.set_position(rect_a, 5, 2).unwrap();
    rectmanager.set_position(rect_b, 5, 2).unwrap();
    assert_eq!(rectmanager.get_absolute_offset(rect_b).unwrap(), (10, 4));
    assert_eq!(rectmanager.get_absolute_offset(rect_a).unwrap(), (5, 2));
    assert_eq!(rectmanager.get_absolute_offset(ROOT).unwrap(), (0, 0));
    assert_eq!(rectmanager.get_absolute_offset(77), None);
}

#[test]
fn relative_offset_is_own() {
    let mut rectmanager = sized_manager(25, 25);
    let rect_a = rectmanager.new_rect(ROOT).ok().unwrap();
    let rect_b = rectmanager.new_rect(rect_a).ok().unwrap();
    rectmanager.set_position(rect_a, 10, 1).unwrap();
    rectmanager.set_position(rect_b, 5, 2).unwrap();
    assert_eq!(rectmanager.get_relative_offset(rect_b).unwrap(), (5, 2));
    assert_eq!(rectmanager.get_relative_offset(ROOT), None);
}

#[test]
fn resize_sets_size() {
    let mut rectmanager = RectManager::new();
    let rect = rectmanager.new_rect(ROOT).ok().unwrap();
    rectmanager.resize(rect, 10, 7).unwrap();
    assert_eq!(rectmanager.get_rect_width(rect), 10);
    assert_eq!(rectmanager.get_rect_height(rect), 7);
    assert_eq!((10, 7), rectmanager.get_rect_size(rect).unwrap());
    assert_eq!(rectmanager.get_rect_size(42), None);
    assert_eq!(rectmanager.resize(42, 1, 1), Err(WreckedError::NotFound(42)));
}

#[test]
fn shift_contents_moves_children_not_characters() {
    let mut rectmanager = sized_manager(25, 25);
    let rect_parent = rectmanager.new_rect(ROOT).ok().unwrap();
    rectmanager.resize(rect_parent, 16, 5).unwrap();
    rectmanager.set_string(rect_parent, 0, 0, "Hello world").unwrap();
    let rect_child = rectmanager.new_rect(rect_parent).ok().unwrap();
    rectmanager.set_position(rect_child, 0, 1).unwrap();
    rectmanager.shift_contents(rect_parent, 0, 1).unwrap();
    assert_eq!(rectmanager.get_character(rect_parent, 0, 0).ok().unwrap(), 'H');
    assert_eq!(rectmanager.get_relative_offset(rect_child).unwrap(), (0, 2));
    assert_eq!(rectmanager.shift_contents(99, 1, 1), Err(WreckedError::NotFound(99)));
}

#[test]
fn set_position_reads_back() {
    let mut rectmanager = sized_manager(25, 25);
    let rect_id = rectmanager.new_rect(ROOT).ok().unwrap();
    rectmanager.set_position(rect_id, 4, 4).unwrap();
    assert_eq!(rectmanager.get_relative_offset(rect_id).unwrap(), (4, 4));
    // a rectangle that is not held has no parent to be placed in
    assert_eq!(rectmanager.set_position(99, 4, 4), Err(WreckedError::NoParent(99)));
}

#[test]
fn detach_and_attach() {
    let mut rectmanager = RectManager::new();
    let rect_a = rectmanager.new_rect(ROOT).ok().unwrap();
    assert_eq!(rectmanager.get_parent_id(rect_a), Some(ROOT));
    assert!(rectmanager.has_parent(rect_a));
    rectmanager.detach(rect_a).unwrap();
    assert!(!rectmanager.has_parent(rect_a));
    assert_eq!(rectmanager.get_parent_id(rect_a), None);
    assert!(rectmanager.get_children(ROOT).is_empty());

    let rect_b = rectmanager.new_orphan().ok().unwrap();
    rectmanager.attach(rect_b, rect_a).unwrap();
    assert_eq!(rectmanager.get_parent_id(rect_b).unwrap(), rect_a);
    assert_eq!(rectmanager.get_children(rect_a), vec![rect_b]);
}

#[test]
fn attach_to_missing_parent_fails() {
    let mut rectmanager = RectManager::new();
    let orphan = rectmanager.new_orphan().ok().unwrap();
    assert_eq!(rectmanager.attach(orphan, 40), Err(WreckedError::NoParent(orphan)));
    assert_eq!(rectmanager.detach(41), Err(WreckedError::NotFound(41)));
}

#[test]
fn new_rect_under_missing_parent_fails() {
    let mut rectmanager = RectManager::new();
    assert!(rectmanager.can_create_child(40));
    let r = rectmanager.new_rect(40);
    assert_eq!(r, Err(WreckedError::NoParent(1)));
    // the rectangle was made all the same, with no parent it can reach
    assert!(rectmanager.has_rect(1));
}

#[test]
fn unset_character_reads_default() {
    let mut rectmanager = RectManager::new();
    rectmanager.set_character(ROOT, 0, 0, 'X').unwrap();
    rectmanager.unset_character(ROOT, 0, 0).unwrap();
    assert_eq!(rectmanager.get_character(ROOT, 0, 0).ok().unwrap(), rectmanager.get_default_character(ROOT));
}

#[test]
fn deleted_rect_is_gone() {
    let mut rectmanager = RectManager::new();
    let rect = rectmanager.new_rect(ROOT).ok().unwrap();
    let child = rectmanager.new_rect(rect).ok().unwrap();
    rectmanager.delete_rect(rect).unwrap();
    assert!(!rectmanager.has_rect(rect));
    assert!(!rectmanager.has_rect(child));
    assert!(rectmanager.get_children(ROOT).is_empty());
}

#[test]
fn replace_with_orphan() {
    let mut rectmanager = sized_manager(25, 25);
    let rect_a = rectmanager.new_rect(ROOT).ok().unwrap();
    rectmanager.set_position(rect_a, 3, 4).unwrap();
    let rect_b = rectmanager.new_orphan().ok().unwrap();
    rectmanager.replace_with(rect_a, rect_b).unwrap();
    assert!(rectmanager.has_parent(rect_b));
    assert!(!rectmanager.has_parent(rect_a));
    assert_eq!(rectmanager.get_relative_offset(rect_b), Some((3, 4)));
}

#[test]
fn colors_read_back() {
    let mut rectmanager = RectManager::new();
    assert_eq!(rectmanager.get_fg_color(ROOT), None);
    rectmanager.set_fg_color(ROOT, Color::BLUE).unwrap();
    assert_eq!(rectmanager.get_fg_color(ROOT), Some(Color::BLUE));
    assert_eq!(rectmanager.get_bg_color(ROOT), None);
    rectmanager.set_bg_color(ROOT, Color::BRIGHTRED).unwrap();
    assert_eq!(rectmanager.get_bg_color(ROOT), Some(Color::BRIGHTRED));
    rectmanager.unset_color(ROOT).unwrap();
    assert_eq!(rectmanager.get_fg_color(ROOT), None);
    assert_eq!(rectmanager.get_bg_color(ROOT), None);
    assert_eq!(rectmanager.get_fg_color(9), None);
}

// ---- laws, on concrete values ----

#[test]
fn transparent_rect_keeps_new_character() {
    let mut rectmanager = RectManager::new();
    rectmanager.set_transparency(ROOT, true).unwrap();
    assert!(rectmanager.is_transparent(ROOT));
    rectmanager.set_character(ROOT, 0, 0, 'X').unwrap();
    assert_eq!(rectmanager.get_character(ROOT, 0, 0).ok().unwrap(), 'X');
    rectmanager.unset_character(ROOT, 0, 0).unwrap();
    assert_eq!(rectmanager.get_character(ROOT, 0, 0).ok().unwrap(), ' ');
}

#[test]
fn struck_cell_uses_strike_code() {
    let mut rectmanager = RectManager::new();
    rectmanager.set_character(ROOT, 0, 0, 'S').unwrap();
    rectmanager.set_strike_flag(ROOT).unwrap();
    assert_eq!(rectmanager.render(), Some("\x1B[1;1H\x1B[9mS\x1B[0m\x1B[1;1H".to_string()));
    let mut struck = EffectsHandler::new();
    struck.strike = true;
    let cells = vec![((0, 0), ('S', struck)), ((1, 0), ('b', bold()))];
    assert_eq!(build_ansi_string(&cells), "\x1B[1;1H\x1B[9mS\x1B[1;29mb".to_string());
}

#[test]
fn string_wraps_row_after_row() {
    let mut rectmanager = sized_manager(3, 2);
    rectmanager.set_string(ROOT, 1, 0, "abcd").unwrap();
    assert_eq!(rectmanager.get_character(ROOT, 1, 0), Ok('a'));
    assert_eq!(rectmanager.get_character(ROOT, 2, 0), Ok('b'));
    assert_eq!(rectmanager.get_character(ROOT, 0, 1), Ok('c'));
    assert_eq!(rectmanager.get_character(ROOT, 1, 1), Ok('d'));
    assert_eq!(rectmanager.get_character(ROOT, 0, 0), Ok(' '));
}

#[test]
fn string_that_overflows_is_refused_whole() {
    let mut rectmanager = sized_manager(3, 2);
    assert_eq!(rectmanager.set_string(ROOT, 0, 0, "abcdef"), Ok(()));
    let r = rectmanager.set_string(ROOT, 1, 1, "xyz");
    assert_eq!(r, Err(WreckedError::StringTooLong(ROOT, (1, 1), "xyz".to_string())));
    assert_eq!(rectmanager.get_character(ROOT, 1, 1), Ok('e'));
}

#[test]
fn string_starting_outside_is_refused() {
    let mut rectmanager = sized_manager(3, 2);
    assert_eq!(rectmanager.set_string(ROOT, -4, 0, "ab"), Err(WreckedError::BadPosition(-1, -1)));
    assert_eq!(rectmanager.set_string(ROOT, -4, 0, ""), Ok(()));
    assert!(rectmanager.can_set_string(ROOT, 0, 0, "ab"));
    assert!(!rectmanager.can_set_string(ROOT, isize::MAX, 1, "ab"));
}

#[test]
fn string_counts_bytes_against_the_area() {
    let mut rectmanager = sized_manager(2, 1);
    // two characters, but four bytes: the area holds two
    assert!(matches!(rectmanager.set_string(ROOT, 0, 0, "éé"), Err(WreckedError::StringTooLong(_, _, _))));
    rectmanager.set_string(ROOT, 0, 0, "é").unwrap();
    assert_eq!(rectmanager.get_character(ROOT, 0, 0), Ok('é'));
}

#[test]
fn redrawing_unchanged_is_quiet() {
    let mut rectmanager = sized_manager(3, 1);
    rectmanager.set_string(ROOT, 0, 0, "abc").unwrap();
    assert!(rectmanager.draw(ROOT).is_some());
    assert_eq!(rectmanager.draw(ROOT), None);
    assert_eq!(rectmanager.render(), None);
}

#[test]
fn render_draws_only_changes() {
    let mut rectmanager = sized_manager(3, 1);
    rectmanager.set_string(ROOT, 0, 0, "abc").unwrap();
    rectmanager.render();
    rectmanager.set_character(ROOT, 1, 0, 'Z').unwrap();
    assert_eq!(rectmanager.render(), Some("\x1B[1;2HZ\x1B[0m\x1B[1;1H".to_string()));
}

// ---- exact output ----

#[test]
fn first_frame_of_one_cell() {
    let mut rectmanager = RectManager::new();
    rectmanager.set_character(ROOT, 0, 0, 'X').unwrap();
    assert_eq!(rectmanager.render(), Some("\x1B[1;1HX\x1B[0m\x1B[1;1H".to_string()));
}

#[test]
fn bold_cell_switches_effects() {
    let mut rectmanager = RectManager::new();
    rectmanager.set_character(ROOT, 0, 0, 'X').unwrap();
    rectmanager.set_bold_flag(ROOT).unwrap();
    assert_eq!(rectmanager.render(), Some("\x1B[1;1H\x1B[1mX\x1B[0m\x1B[1;1H".to_string()));
}

#[test]
fn colored_cell_uses_color_codes() {
    let mut rectmanager = RectManager::new();
    rectmanager.set_character(ROOT, 0, 0, 'X').unwrap();
    rectmanager.set_fg_color(ROOT, Color::BLUE).unwrap();
    rectmanager.set_bg_color(ROOT, Color::BRIGHTWHITE).unwrap();
    assert_eq!(rectmanager.render(), Some("\x1B[1;1H\x1B[34;107mX\x1B[0m\x1B[1;1H".to_string()));
}

#[test]
fn rows_are_drawn_in_order() {
    let mut rectmanager = sized_manager(2, 2);
    rectmanager.set_string(ROOT, 0, 0, "abcd").unwrap();
    assert_eq!(rectmanager.render(), Some("\x1B[1;1Hab\x1B[2;1Hcd\x1B[0m\x1B[1;1H".to_string()));
}

#[test]
fn child_covers_parent_until_disabled() {
    let mut rectmanager = sized_manager(2, 1);
    rectmanager.set_character(ROOT, 0, 0, 'R').unwrap();
    let child = rectmanager.new_rect(ROOT).ok().unwrap();
    rectmanager.set_character(child, 0, 0, 'C').unwrap();
    // a new child covers nothing until it is placed
    assert_eq!(rectmanager.render(), Some("\x1B[1;1HR \x1B[0m\x1B[1;1H".to_string()));
    rectmanager.set_position(child, 0, 0).unwrap();
    assert_eq!(rectmanager.render(), Some("\x1B[1;1HC\x1B[0m\x1B[1;1H".to_string()));
    rectmanager.disable(child).unwrap();
    assert!(!rectmanager.is_rect_enabled(child));
    assert_eq!(rectmanager.render(), Some("\x1B[1;1HR\x1B[0m\x1B[1;1H".to_string()));
    rectmanager.enable(child).unwrap();
    assert_eq!(rectmanager.render(), Some("\x1B[1;1HC\x1B[0m\x1B[1;1H".to_string()));
}

#[test]
fn ansi_string_of_cells() {
    let cells = vec![((0, 0), ('a', EffectsHandler::new())), ((1, 0), ('b', bold())), ((3, 2), ('c', bold()))];
    assert_eq!(build_ansi_string(&cells), "\x1B[1;1Ha\x1B[1mb\x1B[3;4Hc".to_string());
    assert_eq!(build_ansi_string(&Vec::new()), String::new());
}

#[test]
fn cells_sort_row_by_row() {
    let e = EffectsHandler::new();
    let cells = vec![((1, 1), ('d', e)), ((0, 1), ('c', e)), ((5, 0), ('b', e)), ((0, 0), ('a', e))];
    let sorted = sort_cells(&cells);
    let chars: Vec<char> = sorted.iter().map(|c| (c.1).0).collect();
    assert_eq!(chars, vec!['a', 'b', 'c', 'd']);
}

// ---- the environment as a whole ----

#[test]
fn auto_resize_reports_change() {
    let mut rectmanager = RectManager::new();
    assert_eq!(rectmanager.get_width(), 1);
    assert_eq!(rectmanager.get_height(), 1);
    assert!(rectmanager.auto_resize(80, 24));
    assert_eq!(rectmanager.get_width(), 80);
    assert_eq!(rectmanager.get_height(), 24);
    assert!(!rectmanager.auto_resize(80, 24));
}

#[test]
fn kill_clears_everything() {
    let mut rectmanager = sized_manager(2, 1);
    let child = rectmanager.new_rect(ROOT).ok().unwrap();
    rectmanager.set_character(ROOT, 1, 0, 'x').unwrap();
    rectmanager.set_bold_flag(ROOT).unwrap();
    let (out, result) = rectmanager.kill();
    assert_eq!(result, Ok(()));
    assert_eq!(out, Some("\x1B[1;1H  \x1B[0m\x1B[1;1H".to_string()));
    assert!(!rectmanager.has_rect(child));
    assert_eq!(rectmanager.get_character(ROOT, 1, 0), Ok(' '));
    assert!(rectmanager.get_rect(ROOT).unwrap().is_plain());
}

#[test]
fn ids_are_reused_after_delete() {
    let mut rectmanager = RectManager::new();
    let a = rectmanager.new_rect(ROOT).ok().unwrap();
    let b = rectmanager.new_rect(ROOT).ok().unwrap();
    assert_eq!((a, b), (1, 2));
    rectmanager.delete_rect(a).unwrap();
    assert!(rectmanager.can_create_rect());
    assert_eq!(rectmanager.new_rect(ROOT), Ok(1));
    rectmanager.delete_rect(b).unwrap();
    assert_eq!(rectmanager.new_rect(ROOT), Ok(2));
}

#[test]
fn clear_children_removes_the_subtrees() {
    let mut rectmanager = RectManager::new();
    let a = rectmanager.new_rect(ROOT).ok().unwrap();
    let aa = rectmanager.new_rect(a).ok().unwrap();
    rectmanager.clear_children(ROOT).unwrap();
    assert!(rectmanager.get_children(ROOT).is_empty());
    assert!(!rectmanager.has_rect(a));
    assert!(!rectmanager.has_rect(aa));
    assert!(rectmanager.has_rect(ROOT));
}

#[test]
fn placement_checks() {
    let mut rectmanager = RectManager::new();
    let a = rectmanager.new_rect(ROOT).ok().unwrap();
    let b = rectmanager.new_rect(a).ok().unwrap();
    assert!(rectmanager.is_placed(b));
    assert!(rectmanager.is_under(b, ROOT));
    assert!(rectmanager.is_under(b, b));
    assert!(!rectmanager.is_under(ROOT, b));
    assert!(!rectmanager.can_create_child(3));
    assert!(rectmanager.can_create_child(ROOT));
}

#[test]
fn effects_handler_counts() {
    let mut e = EffectsHandler::new();
    assert!(e.is_plain());
    assert_eq!(e.len(), 0);
    e.bold = true;
    e.blink = true;
    e.foreground_color = Some(Color::RED);
    assert!(!e.is_plain());
    assert_eq!(e.len(), 3);
    e.clear();
    assert!(e.is_plain());
    assert_eq!(e.len(), 0);
}

#[test]
fn results_are_numbered() {
    assert_eq!(cast_result(Ok(())), 0);
    assert_eq!(cast_result(Err(WreckedError::BadColor)), 1);
    assert_eq!(cast_result(Err(WreckedError::InvalidUtf8)), 2);
    assert_eq!(cast_result(Err(WreckedError::StringTooLong(1, (0, 0), String::new()))), 3);
    assert_eq!(cast_result(Err(WreckedError::NotFound(3))), 4);
    assert_eq!(cast_result(Err(WreckedError::NoParent(3))), 5);
    assert_eq!(cast_result(Err(WreckedError::ParentNotFound(3, 4))), 6);
    assert_eq!(cast_result(Err(WreckedError::ChildNotFound(3, 4))), 7);
    assert_eq!(cast_result(Err(WreckedError::BadPosition(3, 4))), 8);
    assert_eq!(cast_result(Err(WreckedError::Disabled(3))), 255);
    assert_eq!(cast_result(Err(WreckedError::AllGood)), 255);
}

#[test]
fn colors_by_number() {
    assert_eq!(color_from_number(0), Some(Color::BLACK));
    assert_eq!(color_from_number(4), Some(Color::BLUE));
    assert_eq!(color_from_number(8), Some(Color::BRIGHTBLACK));
    assert_eq!(color_from_number(15), Some(Color::BRIGHTWHITE));
    assert_eq!(color_from_number(16), None);
    assert_eq!(color_from_number(255), None);
}

// ---- what moving, resizing and deleting flag for redrawing ----

#[test]
fn moved_child_redraws_old_and_new_place() {
    let mut rectmanager = sized_manager(3, 1);
    rectmanager.set_string(ROOT, 0, 0, "abc").unwrap();
    let child = rectmanager.new_rect(ROOT).ok().unwrap();
    rectmanager.set_character(child, 0, 0, 'X').unwrap();
    rectmanager.set_position(child, 0, 0).unwrap();
    assert_eq!(rectmanager.render(), Some("\x1B[1;1HXbc\x1B[0m\x1B[1;1H".to_string()));
    rectmanager.set_position(child, 2, 0).unwrap();
    assert_eq!(rectmanager.render(), Some("\x1B[1;1Ha\x1B[1;3HX\x1B[0m\x1B[1;1H".to_string()));
}

#[test]
fn resized_child_redraws_its_area() {
    let mut rectmanager = sized_manager(3, 1);
    rectmanager.set_string(ROOT, 0, 0, "abc").unwrap();
    let child = rectmanager.new_rect(ROOT).ok().unwrap();
    rectmanager.set_character(child, 0, 0, 'X').unwrap();
    rectmanager.set_position(child, 0, 0).unwrap();
    rectmanager.render();
    rectmanager.resize(child, 2, 1).unwrap();
    assert_eq!(rectmanager.render(), Some("\x1B[1;2H \x1B[0m\x1B[1;1H".to_string()));
}

#[test]
fn deleted_child_uncovers_parent() {
    let mut rectmanager = sized_manager(2, 1);
    rectmanager.set_string(ROOT, 0, 0, "ab").unwrap();
    let child = rectmanager.new_rect(ROOT).ok().unwrap();
    rectmanager.set_character(child, 0, 0, 'X').unwrap();
    rectmanager.set_position(child, 1, 0).unwrap();
    assert_eq!(rectmanager.render(), Some("\x1B[1;1HaX\x1B[0m\x1B[1;1H".to_string()));
    rectmanager.delete_rect(child).unwrap();
    assert_eq!(rectmanager.render(), Some("\x1B[1;2Hb\x1B[0m\x1B[1;1H".to_string()));
}

#[test]
fn shifted_children_redraw() {
    let mut rectmanager = sized_manager(3, 1);
    let child = rectmanager.new_rect(ROOT).ok().unwrap();
    rectmanager.set_character(child, 0, 0, 'X').unwrap();
    rectmanager.set_position(child, 0, 0).unwrap();
    assert_eq!(rectmanager.render(), Some("\x1B[1;1HX  \x1B[0m\x1B[1;1H".to_string()));
    rectmanager.shift_contents(ROOT, 1, 0).unwrap();
    assert_eq!(rectmanager.render(), Some("\x1B[1;1H X\x1B[0m\x1B[1;1H".to_string()));
}

#[test]
fn dangling_parent_names_the_next_id() {
    let mut rectmanager = RectManager::new();
    let a = rectmanager.new_orphan().ok().unwrap();
    assert_eq!(rectmanager.attach(a, 2), Err(WreckedError::NoParent(a)));
    assert_eq!(rectmanager.get_parent_id(a), Some(2));
    // a rectangle 2 under `a` would sit above `a` itself
    assert!(!rectmanager.can_create_child(a));
    assert!(rectmanager.can_create_child(ROOT));
    assert_eq!(rectmanager.new_rect(ROOT), Ok(2));
    // `a` now names a held parent that does not list it
    assert!(!rectmanager.is_placed(a));
    assert!(rectmanager.is_placed(2));
}

#[test]
fn nested_change_is_redrawn_where_it_shows() {
    let mut rectmanager = sized_manager(3, 1);
    let a = rectmanager.new_rect(ROOT).ok().unwrap();
    rectmanager.resize(a, 2, 1).unwrap();
    rectmanager.set_position(a, 1, 0).unwrap();
    let r = rectmanager.new_rect(a).ok().unwrap();
    rectmanager.set_position(r, 0, 0).unwrap();
    assert!(rectmanager.render().is_some());
    rectmanager.set_character(r, 0, 0, 'Q').unwrap();
    assert_eq!(rectmanager.render(), Some("\x1B[1;2HQ\x1B[0m\x1B[1;1H".to_string()));
}

#[test]
fn transparent_child_shows_its_characters_and_what_is_behind() {
    let mut rectmanager = sized_manager(3, 1);
    rectmanager.set_string(ROOT, 0, 0, "abc").unwrap();
    let child = rectmanager.new_rect(ROOT).ok().unwrap();
    rectmanager.set_transparency(child, true).unwrap();
    rectmanager.resize(child, 3, 1).unwrap();
    rectmanager.set_position(child, 0, 0).unwrap();
    rectmanager.set_character(child, 1, 0, 'X').unwrap();
    assert_eq!(rectmanager.render(), Some("\x1B[1;1HaXc\x1B[0m\x1B[1;1H".to_string()));
}

#[test]
fn unlisted_rect_resizes_where_it_is() {
    let mut rectmanager = RectManager::new();
    let a = rectmanager.new_orphan().ok().unwrap();
    assert_eq!(rectmanager.attach(a, 2), Err(WreckedError::NoParent(a)));
    assert_eq!(rectmanager.new_rect(ROOT), Ok(2));
    assert!(!rectmanager.is_placed(a));
    assert_eq!(rectmanager.resize(a, 4, 2), Ok(()));
    assert_eq!(rectmanager.get_rect_size(a), Some((4, 2)));
    assert_eq!(rectmanager.get_relative_offset(a), None);
    assert_eq!(rectmanager.get_parent_id(a), Some(2));
    assert_eq!(rectmanager.get_children(2), Vec::<usize>::new());
    // enabling a rectangle that is enabled already leaves it as it is
    assert_eq!(rectmanager.enable(a), Ok(()));
    assert!(rectmanager.is_rect_enabled(a));
}

#[test]
fn enable_undoes_disable() {
    let mut rectmanager = sized_manager(4, 2);
    let a = rectmanager.new_rect(ROOT).ok().unwrap();
    rectmanager.resize(a, 2, 1).unwrap();
    rectmanager.set_position(a, 1, 1).unwrap();
    assert_eq!(rectmanager.disable(a), Ok(()));
    assert!(!rectmanager.is_rect_enabled(a));
    assert!(rectmanager.is_placed(a));
    assert_eq!(rectmanager.enable(a), Ok(()));
    assert!(rectmanager.is_rect_enabled(a));
    assert_eq!(rectmanager.get_relative_offset(a), Some((1, 1)));
    assert_eq!(rectmanager.get_rect_size(a), Some((2, 1)));
}

#[test]
fn cells_already_drawn_are_filtered_out() {
    let mut rectmanager = sized_manager(2, 1);
    let e = EffectsHandler::new();
    let cells = vec![((0, 0), ('x', e)), ((1, 0), ('y', e))];
    assert_eq!(rectmanager.filter_cached(&cells).len(), 2);
    assert_eq!(rectmanager.filter_cached(&cells).len(), 0);
    let changed = vec![((0, 0), ('x', e)), ((1, 0), ('z', e))];
    let kept = rectmanager.filter_cached(&changed);
    assert_eq!(kept.len(), 1);
    assert_eq!(kept[0].0, (1, 0));
    assert_eq!((kept[0].1).0, 'z');
}

#[test]
fn deleted_id_is_handed_out_again() {
    let mut rectmanager = RectManager::new();
    let a = rectmanager.new_rect(ROOT).ok().unwrap();
    let b = rectmanager.new_rect(ROOT).ok().unwrap();
    assert_eq!((a, b), (1, 2));
    rectmanager.delete_rect(a).unwrap();
    assert_eq!(rectmanager.new_rect(ROOT), Ok(a));
    rectmanager.delete_rect(b).unwrap();
    assert_eq!(rectmanager.new_rect(ROOT), Ok(b));
}
