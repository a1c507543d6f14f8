use amadeus::amadeus_m::agnes::{api_key, extract_json_str};
use amadeus::amadeus_m::collatz::{CollatzMode, CollatzOscillator};
use amadeus::amadeus_m::collatz::CollatzMode::{Originalist as O, Vanguardist as V};
use amadeus::amadeus_m::config::AmadeusMConfig;
use amadeus::amadeus_m::constitution::{apply_pos_action, ContextPattern, PosAction};
use amadeus::amadeus_m::token7::Token7;
use amadeus::amadeus_m::focus::{theme_word, Themes};
use amadeus::amadeus_m::friction::{mode_switches, ModeChange};
use amadeus::amadeus_m::snn::{MorphEncoding, SpikeTrain};
use amadeus::hako::HakoModule;

#[test]
fn collatz_steps_follow_the_orbit() {
    let mut o = CollatzOscillator::new(6);
    assert_eq!((o.n, o.seed, o.steps, o.depth, o.streak, o.peak), (6, 6, 0, 0, 0, 6));
    o.step();
    assert_eq!((o.n, o.steps, o.depth, o.streak, o.peak), (3, 1, 1, 1, 6));
    assert_eq!(o.mode(), CollatzMode::Vanguardist);
    o.step();
    assert_eq!((o.n, o.steps, o.depth, o.streak, o.peak), (10, 2, 2, 1, 10));
    assert_eq!(o.mode(), CollatzMode::Originalist);
    o.step();
    assert_eq!((o.n, o.streak), (5, 1));
    assert_eq!(o.describe(), "Collatz n=5 Vanguardista peak=10 streak=1");
}

#[test]
fn collatz_depth_and_streak_saturate() {
    let mut o = CollatzOscillator::new(1 << 20);
    for _ in 0..15 {
        o.step();
    }
    assert_eq!(o.n, 32);
    assert_eq!(o.depth, 10);
    assert_eq!(o.streak, 10);
}

#[test]
fn collatz_reseeds_after_a_long_cycle() {
    let mut o = CollatzOscillator::new(1);
    for _ in 0..99 {
        o.step();
    }
    assert_eq!(o.n, 1);
    for _ in 0..3 {
        o.step();
    }
    assert_eq!(o.steps, 102);
    assert_eq!(o.n, 103);
    assert_eq!(o.peak, 103);
    assert_eq!((o.depth, o.streak), (0, 0));
}

#[test]
fn model_sizes() {
    let s = AmadeusMConfig::small();
    assert_eq!((s.n_layers, s.n_embd, s.n_heads, s.n_kv_heads, s.head_dim), (4, 128, 4, 2, 32));
    assert_eq!(s.n_gqa(), 2);
    let m = AmadeusMConfig::medium();
    assert_eq!((m.vocab_size, m.max_seq_len, m.window_size, m.n_intents), (32000, 8192, 1024, 8));
    assert_eq!(m.n_gqa(), 2);
}

#[test]
fn spike_trains_count_and_locate_spikes() {
    let t = SpikeTrain { timesteps: 3, spikes: vec![false, true, true] };
    assert_eq!(t.spike_count(), 2);
    assert_eq!(t.first_spike(), Some(1));
    let quiet = SpikeTrain { timesteps: 2, spikes: vec![false, false] };
    assert_eq!(quiet.spike_count(), 0);
    assert_eq!(quiet.first_spike(), None);
}

#[test]
fn morph_encoding_layout_and_hot_neurons() {
    let e = MorphEncoding::new();
    assert_eq!(e.total, 30);
    assert_eq!((e.tense_start, e.person_start, e.style_start, e.syn_start), (11, 16, 19, 22));
    let morph: u16 = 2 | (1 << 3) | (6 << 5) | (3 << 8);
    let v = e.hot_inputs(morph, 1, 5);
    assert_eq!(v.len(), 30);
    let hot: Vec<usize> = (0..30).filter(|&i| v[i]).collect();
    assert_eq!(hot, vec![2, 8, 9, 15, 18, 21, 23]);
    // class 7 has no neuron of its own
    let w = e.hot_inputs(7, 0, 0);
    assert!(!w[..7].iter().any(|&b| b));
}

#[test]
fn json_values_are_read_from_replies() {
    assert_eq!(extract_json_str("{\"frase\": \"O amor \u{e9}\"}", "frase"), Some("O amor \u{e9}".to_string()));
    assert_eq!(extract_json_str("{\"satisfacao\": 0.75, \"x\": 1}", "satisfacao"), Some("0.75".to_string()));
    assert_eq!(extract_json_str("{\"n\":-12}", "n"), Some("-12".to_string()));
    assert_eq!(extract_json_str("{\"ok\": true}", "ok"), Some(String::new()));
    assert_eq!(extract_json_str("{\"n\": 12", "n"), None);
    assert_eq!(extract_json_str("{\"a\": \"aberto", "a"), None);
    assert_eq!(extract_json_str("{\"a\" 1}", "a"), None);
    assert_eq!(extract_json_str("{}", "a"), None);
}

#[test]
fn context_patterns_match_position_and_bits() {
    let p = ContextPattern { prev_pos: Some(3), curr_pos: None, prev_bits_mask: Some(0b100) };
    assert!(p.matches(3, 9, 0b110));
    assert!(!p.matches(2, 9, 0b110));
    assert!(!p.matches(3, 9, 0b011));
    let any = ContextPattern { prev_pos: None, curr_pos: Some(0), prev_bits_mask: None };
    assert!(any.matches(7, 0, 0));
    assert!(!any.matches(7, 1, 0));
}

#[test]
fn hako_module_starts_empty() {
    let m = HakoModule::new("bloco");
    assert_eq!(m.name, "bloco");
    assert!(m.nodes.is_empty());
}

#[test]
fn friction_finds_mode_switches() {
    let r = mode_switches(&[O, O, V, V, O]);
    assert_eq!(
        r.switches,
        vec![ModeChange { at: 2, from: O, to: V }, ModeChange { at: 4, from: V, to: O }]
    );
    assert_eq!((r.total_originalist, r.total_vanguardist), (3, 2));
    let none = mode_switches(&[]);
    assert!(none.switches.is_empty());
    assert_eq!((none.total_originalist, none.total_vanguardist), (0, 0));
    let flat = mode_switches(&[V, V, V]);
    assert!(flat.switches.is_empty());
    assert_eq!(flat.total_vanguardist, 3);
}

#[test]
fn class_actions_rewrite_the_token() {
    let t = Token7::new(5, 0x0123).with_syn(-1, 2).with_style(4).with_graph(8);
    assert_eq!(apply_pos_action(t, PosAction::Force(1)), Token7::new(5, 0x0121).with_style(4));
    assert_eq!(apply_pos_action(t, PosAction::Block(3)), Token7::new(5, 0x0120).with_style(4));
    assert_eq!(apply_pos_action(t, PosAction::Block(0)), t);
    let noun = Token7::new(6, 0x0010);
    assert_eq!(apply_pos_action(noun, PosAction::Block(0)), Token7::new(6, 0x0011));
}

#[test]
fn the_longest_word_becomes_the_theme() {
    assert_eq!(theme_word(b"o gato preto dorme tranquilamente no tapete"), Some(b"tranquilamente".to_vec()));
    assert_eq!(theme_word(b"um dia"), Some(b"dia".to_vec()));
    assert_eq!(theme_word(b"casa gato"), Some(b"casa".to_vec()));
    assert_eq!(theme_word(b"ab cd"), None);
    // bytes outside ASCII end a word
    assert_eq!(theme_word("a\u{e7}\u{e3}o".as_bytes()), None);
}

#[test]
fn replaced_themes_are_remembered() {
    let mut t = Themes::new();
    t.set_theme(b"casa");
    assert_eq!(t.theme, b"casa".to_vec());
    assert_eq!(t.secondary_themes, vec![Vec::<u8>::new()]);
    t.set_theme(b"casa");
    assert_eq!(t.secondary_themes.len(), 1);
    for w in [&b"a1"[..], b"a2", b"a3", b"a4", b"a5"] {
        t.set_theme(w);
    }
    assert_eq!(t.theme, b"a5".to_vec());
    assert_eq!(t.secondary_themes, vec![b"casa".to_vec(), b"a1".to_vec(), b"a2".to_vec(), b"a3".to_vec(), b"a4".to_vec()]);
}

#[test]
fn the_api_key_is_the_first_non_empty_key_line() {
    assert_eq!(api_key("# agnes\nkey:    \nkey:  abc123 \r\nkey: other\n"), Some("abc123".to_string()));
    assert_eq!(api_key("token: x\nkey:x\n"), None);
    assert_eq!(api_key(""), None);
}
