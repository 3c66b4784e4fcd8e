use engine::fixplan::build_root_fix_plan;
use engine::names::{
    file_stem_of, generated_mcmeta, is_dead_path, is_junk_name, is_mcmeta_variant, is_png_variant,
    mcmeta_candidate_rank, product_stem, same_windows_target, sanitize_windows_name,
};
use engine::naming::{is_free_ignoring, is_free_reserved, run_dir_name, run_root_candidate, target_candidate};
use engine::order::mcmeta_candidate_cmp;
use std::cmp::Ordering;

fn cs(s: &str) -> Vec<char> {
    s.chars().collect()
}

fn st(v: Vec<char>) -> String {
    v.into_iter().collect()
}

#[test]
fn junk_names_match_without_case() {
    assert!(is_junk_name("__MACOSX"));
    assert!(is_junk_name(".DS_Store"));
    assert!(is_junk_name("Thumbs.db"));
    assert!(is_junk_name("desktop.INI"));
    assert!(!is_junk_name("thumbs.db.zip"));
    assert!(!is_junk_name(""));
}

#[test]
fn rescuable_typos_are_recognised() {
    assert!(is_mcmeta_variant(&cs("Pack.mcmeta")));
    assert!(is_mcmeta_variant(&cs("pack.mcmeta.txt")));
    assert!(!is_mcmeta_variant(&cs("pack.mcmeta")));
    assert!(is_png_variant(&cs("PACK.PNG")));
    assert!(is_png_variant(&cs("pack..png")));
    assert!(!is_png_variant(&cs("pack.png")));
    assert!(is_dead_path(&cs("assets/minecraft/records/cat.ogg")));
    assert!(!is_dead_path(&cs("assets/minecraft/sounds/records/cat.ogg")));
}

#[test]
fn stems_drop_only_the_last_extension() {
    assert_eq!(st(file_stem_of(&cs("Pack.v2.zip"))), "Pack.v2");
    assert_eq!(st(file_stem_of(&cs(".hidden"))), ".hidden");
    assert_eq!(st(file_stem_of(&cs("noext"))), "noext");
    assert_eq!(st(product_stem(&cs("Folder.v1"), true)), "Folder.v1");
    assert_eq!(st(product_stem(&cs("Folder.v1"), false)), "Folder");
}

#[test]
fn windows_names_are_sanitized() {
    assert_eq!(st(sanitize_windows_name(&cs("a<b>c:d\"e/f\\g|h?i*j"))), "a_b_c_d_e_f_g_h_i_j");
    assert_eq!(st(sanitize_windows_name(&cs("name. . "))), "name");
    assert_eq!(st(sanitize_windows_name(&cs("..."))), "pack");
    assert_eq!(st(sanitize_windows_name(&cs("\u{7}bell"))), "_bell");
    assert_eq!(st(sanitize_windows_name(&cs("§b PvP"))), "§b PvP");
    let once = sanitize_windows_name(&cs(" x:y. "));
    assert_eq!(sanitize_windows_name(&once), once);
}

#[test]
fn windows_targets_compare_without_ascii_case() {
    assert!(same_windows_target(&cs("C:\\RP\\Pack.zip"), &cs("c:\\rp\\pack.ZIP")));
    assert!(!same_windows_target(&cs("a.zip"), &cs("b.zip")));
}

#[test]
fn mcmeta_candidates_rank_by_source_priority() {
    assert_eq!(mcmeta_candidate_rank(&cs("pack.mcmeta")), 0);
    assert_eq!(mcmeta_candidate_rank(&cs("PACK.mcmeta")), 1);
    assert_eq!(mcmeta_candidate_rank(&cs("pack.mcmeta.MCMETA")), 2);
    assert_eq!(mcmeta_candidate_rank(&cs("pack.mcmeta.txt")), 3);
    assert_eq!(mcmeta_candidate_cmp(&cs("Pack.mcmeta"), &cs("pack.mcmeta.mcmeta")), Ordering::Less);
    assert_eq!(mcmeta_candidate_cmp(&cs("pack.MCMETA"), &cs("Pack.mcmeta")), Ordering::Greater);
    assert_eq!(mcmeta_candidate_cmp(&cs("Pack.mcmeta"), &cs("Pack.mcmeta")), Ordering::Equal);
    let names = vec![cs("pack.mcmeta.txt"), cs("pack.MCMETA"), cs("Pack.mcmeta"), cs("assets/a.png")];
    let plan = build_root_fix_plan(&names);
    assert_eq!(plan.targets[0], None);
    assert_eq!(plan.targets[1], None);
    assert_eq!(plan.targets[2].as_deref(), Some("pack.mcmeta"));
    assert_eq!(plan.targets[3].as_deref(), Some("assets/a.png"));
    assert!(!plan.mcmeta_missing);
}

#[test]
fn the_fix_plan_asks_for_a_missing_mcmeta() {
    let names = vec![cs("assets/minecraft/a.png"), cs("assets/"), cs("credits.txt")];
    let plan = build_root_fix_plan(&names);
    assert_eq!(plan.targets[0].as_deref(), Some("assets/minecraft/a.png"));
    assert_eq!(plan.targets[1], None);
    assert_eq!(plan.targets[2], None);
    assert!(plan.mcmeta_missing);
    assert_eq!(
        generated_mcmeta(&cs("My Pack")),
        r#"{"pack":{"pack_format":1,"description":"My Pack"}}"#
    );
}

#[test]
fn the_fix_plan_keeps_only_core_paths() {
    let names = vec![
        cs("pack.mcmeta"),
        cs("pack.png"),
        cs("PACK.PNG"),
        cs("readme.txt"),
        cs("assets/minecraft/records/cat.ogg"),
        cs("assets/minecraft/textures/a.png"),
        cs("assets/.DS_Store"),
        cs("extra/assets/x.png"),
    ];
    let plan = build_root_fix_plan(&names);
    let kept: Vec<Option<&str>> = plan.targets.iter().map(|t| t.as_deref()).collect();
    assert_eq!(
        kept,
        vec![
            Some("pack.mcmeta"),
            Some("pack.png"),
            None,
            None,
            None,
            Some("assets/minecraft/textures/a.png"),
            None,
            None
        ]
    );
    assert!(!plan.mcmeta_missing);
}

#[test]
fn the_fix_plan_renames_typo_core_files() {
    let names = vec![cs("Pack.mcmeta"), cs("pack..png"), cs("assets/a.png")];
    let plan = build_root_fix_plan(&names);
    assert_eq!(plan.targets[0].as_deref(), Some("pack.mcmeta"));
    assert_eq!(plan.targets[1].as_deref(), Some("pack.png"));
    assert_eq!(plan.targets[2].as_deref(), Some("assets/a.png"));
    assert!(!plan.mcmeta_missing);
}

#[test]
fn colliding_names_get_numbered_candidates() {
    assert_eq!(st(target_candidate(&cs("Pack.zip"), 0)), "Pack.zip");
    assert_eq!(st(target_candidate(&cs("Pack.zip"), 1)), "Pack (1).zip");
    assert_eq!(st(target_candidate(&cs("Pack.v2.zip"), 12)), "Pack.v2 (12).zip");
    assert_eq!(st(target_candidate(&cs("Folder"), 3)), "Folder (3)");
    assert_eq!(st(target_candidate(&cs(".cfg"), 2)), ".cfg (2)");
    assert_eq!(st(run_root_candidate(&cs("Plot_2026-08-23_13.46.34"), 0)), "Plot_2026-08-23_13.46.34");
    assert_eq!(st(run_root_candidate(&cs("Plot_2026-08-23_13.46.34"), 2)), "Plot_2026-08-23_13.46.34 (2)");
    assert_eq!(st(target_candidate(&cs("x"), 18446744073709551615)), "x (18446744073709551615)");
}

#[test]
fn reserved_and_existing_targets_are_not_free() {
    let reserved = vec![cs("C:\\rp\\A.zip")];
    assert!(!is_free_reserved(&cs("c:\\RP\\a.zip"), false, &reserved));
    assert!(!is_free_reserved(&cs("C:\\rp\\B.zip"), true, &reserved));
    assert!(is_free_reserved(&cs("C:\\rp\\B.zip"), false, &reserved));
    assert!(is_free_ignoring(&cs("C:\\rp\\Shell.zip"), true, &reserved, &cs("c:\\rp\\shell.zip")));
    assert!(!is_free_ignoring(&cs("C:\\rp\\Other.zip"), true, &reserved, &cs("c:\\rp\\shell.zip")));
}

#[test]
fn the_run_folder_is_named_after_the_local_time_with_dots() {
    assert_eq!(run_dir_name(2026, 8, 23, 13, 46, 34), "Plot_2026-08-23_13.46.34");
    assert_eq!(run_dir_name(999, 1, 2, 3, 4, 5), "Plot_0999-01-02_03.04.05");
}
