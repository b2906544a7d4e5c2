use apilaaa::fit::AnomalyArg;
use apilaaa::ui::dash::Key;
use apilaaa::ui::form::{value, Form, Shown, Step};
use apilaaa::ui::wizard::{
    anomaly_name, help, kind, label, rows, section_name, summary, Args, Cfg, Id, Kind, Row, Section,
};

fn defaults() -> Args {
    Args {
        input: String::from("frames"),
        output: String::from("stack.dng"),
        max_stars: 60,
        limit: None,
        no_stretch: false,
        no_flatten: false,
        no_residual_surface: false,
        dump_correction: None,
        no_stack: false,
        export_clean: None,
        export_window: 7,
        export_no_stabilize: false,
        export_no_deflicker: false,
        export_no_transients: false,
        export_no_cloud_guard: false,
        scatter_comp: 1_000_000_000,
        stack_sky_tolerance: 1_600_000_000,
        stack_max_foreground: None,
        fixed_tripod: false,
        fixed_no_stabilize: false,
        fixed_search: 64,
        fixed_anomaly: AnomalyArg::Coarse,
    }
}

fn form() -> Form {
    Form::new(&defaults(), Ok(12))
}

fn press(f: Form, keys: &[Key]) -> Form {
    let mut f = f;
    for k in keys {
        f = f.key(*k, false).0;
    }
    f
}

fn type_in(f: Form, s: &str) -> Form {
    let mut f = f;
    for c in s.chars() {
        f = f.key(Key::Char(c), false).0;
    }
    f
}

fn focus(f: Form, id: Id) -> Form {
    let mut f = f;
    while f.cursor > 1 {
        f = f.key(Key::Up, false).0;
    }
    let mut n = 0;
    while f.current() != Some(id) && n < 40 {
        f = f.key(Key::Down, false).0;
        n += 1;
    }
    assert_eq!(f.current(), Some(id));
    f
}

#[test]
fn untouched_form_is_the_defaults() {
    let c = Cfg::new(&defaults());
    assert_eq!(c.command_line(&defaults()), "apilaaa");
    let a = c.to_args();
    assert_eq!(a.input, "frames");
    assert_eq!(a.limit, None);
    assert!(a.export_clean.is_none() && a.dump_correction.is_none());
    assert_eq!(a.scatter_comp, 1_000_000_000);
}

#[test]
fn command_line_spells_out_what_departs() {
    let mut c = Cfg::new(&defaults());
    c.input = String::from(" my frames ");
    c.untracked = true;
    c.limit = 25;
    c.scatter_comp = 1_250_000_000;
    c.export = true;
    c.export_dir = String::from("out");
    c.export_window = 9;
    c.export_deflicker = false;
    c.fixed_anomaly = AnomalyArg::Off;
    c.max_foreground = Some(350_000_000);
    c.max_stars = 80;
    assert_eq!(
        c.command_line(&defaults()),
        "apilaaa -i 'my frames' --fixed-tripod --limit 25 --scatter-comp 1.25 --export-clean out --export-window 9 --export-no-deflicker --fixed-anomaly none --stack-max-foreground 0.35 --max-stars 80"
    );
    let mut c = Cfg::new(&defaults());
    c.stack = false;
    c.output = String::from("other.dng");
    c.stretch = false;
    c.flatten = false;
    c.residual_surface = false;
    c.sky_tolerance = 2_000_000_000;
    c.dump_correction = String::from("d.dng");
    assert_eq!(
        c.command_line(&defaults()),
        "apilaaa --no-stack --no-stretch --no-flatten --dump-correction d.dng --stack-sky-tolerance 2.00"
    );
    let a = c.to_args();
    assert!(a.no_stack && a.no_stretch && a.no_flatten && a.no_residual_surface);
    assert_eq!(a.dump_correction, Some(String::from("d.dng")));
    let mut c = Cfg::new(&defaults());
    c.untracked = true;
    c.fixed_stabilize = false;
    c.fixed_search = 32;
    c.export = true;
    c.export_stabilize = false;
    c.export_transients = false;
    c.export_cloud_guard = false;
    c.residual_surface = false;
    c.output = String::from("other.dng");
    assert_eq!(
        c.command_line(&defaults()),
        "apilaaa -o other.dng --fixed-tripod --no-residual-surface --export-clean  --export-no-stabilize --export-no-transients --export-no-cloud-guard --fixed-no-stabilize --fixed-search 32"
    );
}

#[test]
fn what_a_shell_would_read_otherwise_is_quoted() {
    let line = |input: &str| {
        let mut c = Cfg::new(&defaults());
        c.input = String::from(input);
        c.command_line(&defaults())
    };
    assert_eq!(line("a/b-c_d.1"), "apilaaa -i a/b-c_d.1");
    assert_eq!(line("year=2024,n%1"), "apilaaa -i year=2024,n%1");
    assert_eq!(line("$HOME"), "apilaaa -i '$HOME'");
    assert_eq!(line("a;b"), "apilaaa -i 'a;b'");
    assert_eq!(line("night (2)"), "apilaaa -i 'night (2)'");
    assert_eq!(line("a\\b"), "apilaaa -i 'a\\b'");
    assert_eq!(line("a\tb"), "apilaaa -i 'a\tb'");
    assert_eq!(line("it's"), "apilaaa -i 'it'\\''s'");
    assert_eq!(line("''"), "apilaaa -i ''\\'''\\'''");
    for c in "\"`*?[]{}<>|&#~!\r\n".chars() {
        let path = format!("x{}y", c);
        assert_eq!(line(&path), format!("apilaaa -i '{}'", path));
    }
    let mut c = Cfg::new(&defaults());
    c.output = String::from("Ann's.dng");
    c.export = true;
    c.export_dir = String::from("out & more");
    c.dump_correction = String::from("d$.dng");
    assert_eq!(
        c.command_line(&defaults()),
        "apilaaa -o 'Ann'\\''s.dng' --dump-correction 'd$.dng' --export-clean 'out & more'"
    );
}

#[test]
fn rows_that_do_not_apply_are_not_shown() {
    let mut c = Cfg::new(&defaults());
    let shown = rows(&c);
    assert_eq!(shown[0], Row::Section(Section::Frames));
    assert_eq!(shown[1], Row::Field(Id::Input));
    assert!(!shown.contains(&Row::Section(Section::Tripod)));
    assert!(!shown.contains(&Row::Field(Id::ExportDir)));
    assert!(shown.contains(&Row::Field(Id::MaxStars)));
    assert_eq!(shown.len(), 19);
    c.untracked = true;
    c.export = true;
    let shown = rows(&c);
    assert!(shown.contains(&Row::Field(Id::FixedSearch)));
    assert!(shown.contains(&Row::Field(Id::ExportWindow)));
    assert!(!shown.contains(&Row::Field(Id::MaxStars)));
    assert_eq!(shown.len(), 28);
    c.stack = false;
    c.flatten = false;
    c.fixed_stabilize = false;
    assert_eq!(rows(&c).len(), 22);
}

#[test]
fn focus_moves_over_fields_only() {
    let mut f = form();
    assert_eq!(f.cursor, 1);
    for _ in 0..60 {
        f = press(f, &[Key::Down]);
        assert!(f.current().is_some());
    }
    assert_eq!(f.current(), Some(Id::MaxStars));
    for _ in 0..60 {
        f = press(f, &[Key::Up]);
        assert!(f.current().is_some());
    }
    assert_eq!(f.current(), Some(Id::Input));
    assert_eq!(f.next_field(0, true), Some(1));
    assert_eq!(f.next_field(4, false), Some(3));
    assert_eq!(f.next_field(0, false), None);
    assert_eq!(f.next_field(99, true), None);
}

#[test]
fn stepping_keeps_the_focus() {
    for id in [Id::Sequence, Id::Stack, Id::Flatten, Id::Export] {
        let f = focus(form(), id);
        let f = press(f, &[Key::Right]);
        assert_eq!(f.current(), Some(id));
        let f = press(f, &[Key::Left]);
        assert_eq!(f.current(), Some(id));
    }
}

#[test]
fn typing_replaces_and_commits() {
    let f = type_in(form(), " /night sky ");
    assert_eq!(f.edit, Some(String::from(" /night sky ")));
    let (f, step) = f.key(Key::Enter, false);
    assert!(matches!(step, Step::Continue));
    assert_eq!(f.cfg.input, "/night sky");
    assert!(f.edit.is_none());
    assert!(f.stale());
    let f = f.rescan(Ok(3));
    assert!(!f.stale());
    assert_eq!(f.frames_found(), "  3 frames");
    let f = type_in(focus(f, Id::MaxStars), "x9999.");
    assert_eq!(f.edit, Some(String::from("9999.")));
    let f = press(f, &[Key::Backspace, Key::Enter]);
    assert_eq!(f.cfg.max_stars, 2000);
    let f = type_in(focus(f, Id::MaxStars), "..");
    let f = press(f, &[Key::Up]);
    assert_eq!(f.cfg.max_stars, 2000);
    let f = type_in(form(), "abc");
    let (f, step) = f.key(Key::Esc, false);
    assert!(matches!(step, Step::Continue));
    assert_eq!(f.cfg.input, "frames");
    assert!(matches!(f.key(Key::Esc, false).1, Step::Quit));
}

#[test]
fn typed_numbers_are_held_to_their_range() {
    let f = type_in(focus(form(), Id::SkyTolerance), "0.5");
    assert_eq!(press(f, &[Key::Enter]).cfg.sky_tolerance, 1_000_000_000);
    let f = type_in(focus(form(), Id::SkyTolerance), "2.345678901");
    assert_eq!(press(f, &[Key::Enter]).cfg.sky_tolerance, 2_345_678_901);
    let f = type_in(focus(form(), Id::SkyTolerance), "2.3456789015");
    assert_eq!(press(f, &[Key::Enter]).cfg.sky_tolerance, 2_345_678_902);
    let f = type_in(focus(form(), Id::ScatterComp), "123456789012345678901234567890");
    assert_eq!(press(f, &[Key::Enter]).cfg.scatter_comp, 4_000_000_000);
    let f = type_in(focus(form(), Id::ScatterComp), ".75");
    assert_eq!(press(f, &[Key::Enter]).cfg.scatter_comp, 750_000_000);
    let f = type_in(focus(form(), Id::ScatterComp), "3.");
    assert_eq!(press(f, &[Key::Enter]).cfg.scatter_comp, 3_000_000_000);
    let f = type_in(focus(form(), Id::ScatterComp), "1.2.3");
    assert_eq!(press(f, &[Key::Enter]).cfg.scatter_comp, 1_000_000_000);
    let f = type_in(focus(form(), Id::MaxForeground), "7");
    assert_eq!(press(f, &[Key::Enter]).cfg.max_foreground, Some(1_000_000_000));
    let f = type_in(focus(form(), Id::MaxForeground), "0");
    assert_eq!(press(f, &[Key::Enter]).cfg.max_foreground, Some(0));
    let f = type_in(focus(form(), Id::Limit), "40");
    assert_eq!(press(f, &[Key::Enter]).cfg.limit, 40);
    let f = focus(form(), Id::Export);
    let f = type_in(focus(press(f, &[Key::Right]), Id::ExportWindow), "10");
    assert_eq!(press(f, &[Key::Enter]).cfg.export_window, 11);
}

#[test]
fn unreadable_numbers_change_nothing() {
    let f = type_in(focus(form(), Id::MaxForeground), ".");
    let f = press(f, &[Key::Enter]);
    assert_eq!(f.cfg.max_foreground, None);
    assert!(f.edit.is_none());
    let mut f = form();
    f.cfg.max_foreground = Some(350_000_000);
    let f = press(type_in(focus(f, Id::MaxForeground), "1..2"), &[Key::Enter]);
    assert_eq!(f.cfg.max_foreground, Some(350_000_000));
    let f = press(type_in(focus(f, Id::MaxStars), "4.5"), &[Key::Enter]);
    assert_eq!(f.cfg.max_stars, 60);
    let f = press(type_in(focus(f, Id::SkyTolerance), "."), &[Key::Enter]);
    assert_eq!(f.cfg.sky_tolerance, 1_600_000_000);
    let f = press(type_in(focus(f, Id::Limit), "1.5"), &[Key::Enter]);
    assert_eq!(f.cfg.limit, 0);
}

#[test]
fn command_line_keeps_every_decimal() {
    let mut c = Cfg::new(&defaults());
    c.scatter_comp = 123_000_000;
    assert_eq!(c.command_line(&defaults()), "apilaaa --scatter-comp 0.123");
    c.scatter_comp = 120_000_000;
    assert_eq!(c.command_line(&defaults()), "apilaaa --scatter-comp 0.12");
    c.scatter_comp = 3_000_000_001;
    assert_eq!(c.command_line(&defaults()), "apilaaa --scatter-comp 3.000000001");
    c.scatter_comp = 1_000_000_000;
    c.max_foreground = Some(0);
    assert_eq!(c.command_line(&defaults()), "apilaaa --stack-max-foreground 0.00");
}

#[test]
fn steps_of_the_numbers() {
    let f = press(focus(form(), Id::Limit), &[Key::Left]);
    assert_eq!(f.cfg.limit, 0);
    let f = press(f, &[Key::Right, Key::Right]);
    assert_eq!(f.cfg.limit, 10);
    let f = press(focus(form(), Id::ScatterComp), &[Key::Right]);
    assert_eq!(f.cfg.scatter_comp, 1_100_000_000);
    let f = press(focus(form(), Id::SkyTolerance), &[Key::Left; 9]);
    assert_eq!(f.cfg.sky_tolerance, 1_000_000_000);
    let f = press(focus(form(), Id::MaxForeground), &[Key::Right, Key::Right]);
    assert_eq!(f.cfg.max_foreground, Some(50_000_000));
    let f = press(f, &[Key::Left, Key::Left]);
    assert_eq!(f.cfg.max_foreground, None);
    let f = press(focus(form(), Id::MaxStars), &[Key::Left]);
    assert_eq!(f.cfg.max_stars, 55);
    let f = press(focus(form(), Id::Export), &[Key::Char(' ')]);
    assert!(f.cfg.export);
    assert_eq!(f.cfg.export_dir, "frames_clean");
    let f = press(focus(f, Id::ExportWindow), &[Key::Right]);
    assert_eq!(f.cfg.export_window, 9);
    let f = press(f, &[Key::Left; 9]);
    assert_eq!(f.cfg.export_window, 1);
    let f = press(focus(form(), Id::Sequence), &[Key::Right]);
    let f = press(focus(f, Id::FixedAnomaly), &[Key::Right]);
    assert!(matches!(f.cfg.fixed_anomaly, AnomalyArg::Off));
    let f = press(f, &[Key::Left, Key::Left]);
    assert!(matches!(f.cfg.fixed_anomaly, AnomalyArg::Full));
    let f = press(focus(f, Id::FixedSearch), &[Key::Right]);
    assert_eq!(f.cfg.fixed_search, 72);
}

#[test]
fn numbers_stay_in_their_ranges() {
    let f = press(focus(form(), Id::MaxStars), &[Key::Right; 500]);
    assert_eq!(f.cfg.max_stars, 2000);
    let f = press(f, &[Key::Left; 500]);
    assert_eq!(f.cfg.max_stars, 5);
    let f = press(focus(f, Id::ScatterComp), &[Key::Right; 50]);
    assert_eq!(f.cfg.scatter_comp, 4_000_000_000);
    let f = press(f, &[Key::Left; 50]);
    assert_eq!(f.cfg.scatter_comp, 0);
    let f = press(focus(f, Id::MaxForeground), &[Key::Right; 50]);
    assert_eq!(f.cfg.max_foreground, Some(1_000_000_000));
}

#[test]
fn keys_that_start_and_quit() {
    assert!(matches!(form().key(Key::Char('c'), true).1, Step::Quit));
    assert!(matches!(form().key(Key::Char('r'), true).1, Step::Check));
    assert!(matches!(form().key(Key::Char('x'), true).1, Step::Continue));
    assert!(matches!(form().key(Key::F5, false).1, Step::Check));
    assert!(matches!(form().key(Key::Enter, false).1, Step::Check));
    assert!(matches!(form().key(Key::Esc, false).1, Step::Quit));
    assert!(matches!(form().start().1, Step::Start));
}

#[test]
fn obstacles_are_named() {
    let why = |change: fn(&mut Form)| {
        let mut f = form();
        change(&mut f);
        let w = f.validate();
        let (f, step) = f.start();
        assert!(matches!(step, Step::Continue));
        assert_eq!(f.error, w);
        w.unwrap()
    };
    assert_eq!(why(|f| f.cfg.input = String::from("  ")), "no frames directory given");
    assert_eq!(why(|f| f.found = Err(String::from("gone"))), "gone");
    assert_eq!(why(|f| f.found = Ok(0)), "no .ARW found in frames");
    assert_eq!(
        why(|f| f.cfg.stack = false),
        "with the stack off and no export the run would produce nothing"
    );
    assert_eq!(
        why(|f| {
            f.cfg.stack = false;
            f.cfg.export = true;
            f.cfg.export_dir = String::from("out");
        }),
        "the stack can only be skipped on an untracked sequence: on a tracked one it is what every exported frame is levelled against"
    );
    assert_eq!(why(|f| f.cfg.output = String::new()), "no output DNG given");
    assert_eq!(why(|f| f.cfg.export = true), "no export directory given");
    assert_eq!(
        why(|f| {
            f.cfg.export = true;
            f.cfg.export_dir = String::from("out");
            f.cfg.flatten = false;
        }),
        "the timelapse export needs the correction on"
    );
}

#[test]
fn focus_stays_on_screen() {
    let mut f = form();
    for _ in 0..25 {
        f = press(f, &[Key::Down]).scroll(5);
        assert!(f.top <= f.cursor && f.cursor < f.top + 5);
    }
    assert_eq!(f.top, 19 - 5);
    let f = f.scroll(100);
    assert_eq!(f.top, 0);
}

#[test]
fn rows_show_their_values() {
    let f = focus(form(), Id::SkyTolerance);
    assert!(matches!(f.row(0), Shown::Heading(Section::Frames)));
    match f.row(f.cursor) {
        Shown::Field { id, selected, editing, text, note } => {
            assert_eq!(id, Id::SkyTolerance);
            assert!(selected && !editing);
            assert_eq!(text, "x1.60");
            assert_eq!(note, "");
        }
        Shown::Heading(_) => panic!("a field"),
    }
    let f = type_in(f, "2");
    match f.row(f.cursor) {
        Shown::Field { editing, text, .. } => {
            assert!(editing);
            assert_eq!(text, "2");
        }
        Shown::Heading(_) => panic!("a field"),
    }
    let mut c = Cfg::new(&defaults());
    c.scatter_comp = 0;
    c.export_window = 1;
    c.max_foreground = Some(345_000_000);
    assert_eq!(value(&c, Id::ScatterComp), (String::from("0.00"), String::from("  off")));
    assert_eq!(
        value(&c, Id::ExportWindow),
        (String::from("1 frames"), String::from("  no temporal reduction"))
    );
    assert_eq!(value(&c, Id::MaxForeground).0, "34%");
    assert_eq!(value(&c, Id::Limit).0, "all");
    assert_eq!(value(&c, Id::Sequence).0, "tracked — equatorial mount");
    assert_eq!(value(&c, Id::FixedSearch).0, "64 px");
    assert_eq!(value(&c, Id::DumpCorrection).0, "off");
    assert_eq!(value(&c, Id::Stack).0, "on");
    assert_eq!(value(&c, Id::FixedAnomaly).0, "coarse");
    assert_eq!(value(&c, Id::MaxStars).0, "60");
    let mut f = form();
    f.found = Ok(0);
    assert_eq!(f.frames_found(), "  no .ARW here");
    f.found = Err(String::from("?"));
    assert_eq!(f.frames_found(), "  not a readable directory");
}

#[test]
fn names_of_fields_and_headings() {
    assert_eq!(section_name(Section::Selection), "frame selection");
    assert_eq!(label(Id::Flatten), "remove halo + gradient");
    assert_eq!(help(Id::MaxStars), "Stars used per frame for the alignment fit.");
    assert_eq!(kind(Id::FixedAnomaly), Kind::Choice);
    assert_eq!(kind(Id::Sequence), Kind::Switch);
    assert_eq!(anomaly_name(AnomalyArg::Full), "full");
}

#[test]
fn dashboard_states_the_run() {
    let mut a = defaults();
    assert_eq!(
        summary(&a),
        vec![
            (String::from("input"), String::from("frames")),
            (String::from("mode"), String::from("tracked")),
            (String::from("output"), String::from("stack.dng")),
            (String::from("export"), String::from("off")),
            (String::from("frames"), String::from("counting...")),
            (String::from("clean"), String::from("halo + gradient")),
        ]
    );
    a.fixed_tripod = true;
    a.no_stack = true;
    a.no_flatten = true;
    a.export_clean = Some(String::from("out"));
    let s = summary(&a);
    assert_eq!(s[1].1, "untracked (fixed tripod)");
    assert_eq!(s[2].1, "none (--no-stack)");
    assert_eq!(s[3].1, "out (window 7)");
    assert_eq!(s[5].1, "off (--no-flatten)");
}
