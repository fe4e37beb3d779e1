use aura_nexus::mode::AppMode;

#[test]
fn modes_have_their_names() {
    assert_eq!(AppMode::Companion.to_string(), "companion");
    assert_eq!(AppMode::Youniverse.to_string(), "youniverse");
}

#[test]
fn modes_have_their_prompts() {
    assert_eq!(
        AppMode::Companion.system_prompt(),
        "You are Aura, a helpful and versatile AI assistant. You help with any task - answering questions, \
                brainstorming ideas, solving problems, providing information, or just having a conversation. \
                You're friendly, clear, and adapt to what the user needs."
    );
    assert_eq!(
        AppMode::Youniverse.system_prompt(),
        "You are an imaginative AI storyteller in the 'You'niverse. You craft engaging narratives, \
                develop rich characters, and help users explore creative storylines. You adapt to different genres, \
                maintain story continuity, and encourage creative expression."
    );
}

#[test]
fn names_are_read_back() {
    assert_eq!(AppMode::parse("companion"), Ok(AppMode::Companion));
    assert_eq!(AppMode::parse("youniverse"), Ok(AppMode::Youniverse));
    for mode in [AppMode::Companion, AppMode::Youniverse] {
        assert_eq!(AppMode::parse(&mode.to_string()), Ok(mode));
    }
}

#[test]
fn unknown_names_are_refused() {
    assert_eq!(AppMode::parse("Companion"), Err("Unknown mode: Companion".to_string()));
    assert_eq!(AppMode::parse(""), Err("Unknown mode: ".to_string()));
    assert_eq!(AppMode::parse("companion "), Err("Unknown mode: companion ".to_string()));
}
