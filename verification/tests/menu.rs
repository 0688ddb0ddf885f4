use safe_clean::menu::{wrap_next, wrap_previous, MenuOption};

#[test]
fn menu_labels() {
    assert_eq!(MenuOption::ListDirectories.as_str(), "📁 List directories by size");
    assert_eq!(MenuOption::FindLargeFiles.as_str(), "🔍 Find large files");
    assert_eq!(MenuOption::FindDevArtifacts.as_str(), "🛠️  Find development artifacts");
    assert_eq!(MenuOption::DockerCleanup.as_str(), "🐳 Docker cleanup");
    assert_eq!(MenuOption::TempCleanup.as_str(), "🗂️  Temporary files cleanup");
    assert_eq!(MenuOption::Exit.as_str(), "❌ Exit");
}

#[test]
fn selection_wraps_around() {
    assert_eq!(wrap_next(None, 6), 0);
    assert_eq!(wrap_next(Some(0), 6), 1);
    assert_eq!(wrap_next(Some(5), 6), 0);
    assert_eq!(wrap_previous(None, 6), 0);
    assert_eq!(wrap_previous(Some(0), 6), 5);
    assert_eq!(wrap_previous(Some(3), 6), 2);
    assert_eq!(wrap_next(Some(0), 1), 0);
    assert_eq!(wrap_previous(Some(0), 1), 0);
}
