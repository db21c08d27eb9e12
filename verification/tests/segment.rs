use jieba::dict::Jieba;
use jieba::ends::Ends;
use jieba::hmm::{cut_by_states, State};
use jieba::split::{cut_other, split_blocks, sub_chars, Block};
use jieba::text::to_chars;
use jieba::walk::Piece;

fn lines() -> Vec<String> {
    let raw = [
        "网 3013 n",
        "网球 939 n",
        "网球拍 12 n",
        "球 3466 n",
        "球拍 113 n",
        "拍 1118 v",
        "拍卖 1177 v",
        "拍卖会 69 n",
        "卖 3028 v",
        "会 73416 v",
        "我 328841 r",
        "我们 90153 r",
        "中 155301 f",
        "出 83668 v",
        "了 883634 ul",
        "一 217830 m",
        "一个 142925 m",
        "个 171121 q",
        "叛 65 v",
        "叛徒 338 n",
        "徒 437 n",
        "的 3188252 uj",
        "是 796991 v",
        "在 727915 p",
    ];
    raw.iter().map(|s| s.to_string()).collect()
}

fn small() -> Jieba {
    let mut jieba = Jieba::empty();
    assert!(jieba.load_dict(&lines()).is_ok());
    jieba
}

fn solve(jieba: &Jieba, chars: &Vec<char>, dag: &Vec<Ends>) -> Vec<usize> {
    let n = chars.len();
    let mut route: Vec<(f64, usize)> = vec![(0.0, 0); n + 1];
    let logtotal = (jieba.total() as f64).ln();
    for i in (0..n).rev() {
        let mut best: Option<(f64, usize)> = None;
        for e in dag[i].to_vec() {
            let word: Vec<char> = chars[i..e + 1].to_vec();
            let score = (jieba.weight(&word) as f64).ln() - logtotal + route[e + 1].0;
            best = match best {
                Some((s, b)) if s > score => Some((s, b)),
                _ => Some((score, e)),
            };
        }
        route[i] = best.unwrap();
    }
    route.iter().take(n).map(|p| p.1).collect()
}

fn decode(run: &Vec<char>) -> Vec<State> {
    let text: String = run.iter().collect();
    if text == "中出了" {
        vec![State::B, State::E, State::S]
    } else {
        run.iter().map(|_| State::S).collect()
    }
}

fn cut(jieba: &Jieba, sentence: &str, hmm: bool) -> Vec<String> {
    jieba.cut(sentence, hmm, &|chars: &Vec<char>, dag: &Vec<Ends>| solve(jieba, chars, dag), &decode)
}

fn cut_in_steps(jieba: &Jieba, sentence: &str, hmm: bool) -> Vec<String> {
    let chars = to_chars(sentence);
    let mut words = Vec::new();
    for block in split_blocks(&chars) {
        let part = sub_chars(&chars, block.start, block.end);
        if !block.dict {
            words.extend(cut_other(&part));
            continue;
        }
        let dag = jieba.dag(&part);
        let route = solve(jieba, &part, &dag);
        if hmm {
            let pieces = jieba.cut_dag_hmm(&part, &route);
            words.extend(Jieba::settle(&pieces, &decode));
        } else {
            words.extend(jieba.cut_dag_no_hmm(&part, &route));
        }
    }
    words
}

#[test]
fn test_dag() {
    let jieba = small();
    let sentence = "网球拍卖会";
    let chars = to_chars(sentence);
    let dag = jieba.dag(&chars);
    assert_eq!(dag[0].to_vec(), vec![0, 1, 2]);
    assert_eq!(dag[1].to_vec(), vec![1, 2]);
    assert_eq!(dag[2].to_vec(), vec![2, 3, 4]);
    assert_eq!(dag[3].to_vec(), vec![3]);
    assert_eq!(dag[4].to_vec(), vec![4]);
}

#[test]
fn test_cut_all_internal() {
    let jieba = small();
    let words = jieba.cut_all_internal("网球拍卖会");
    assert_eq!(words, vec!["网球", "网球拍", "球拍", "拍卖", "拍卖会"]);
}

#[test]
fn test_cut_dag_no_hmm() {
    let jieba = small();
    let chars = to_chars("网球拍卖会");
    let dag = jieba.dag(&chars);
    let route = solve(&jieba, &chars, &dag);
    let words = jieba.cut_dag_no_hmm(&chars, &route);
    assert_eq!(words, vec!["网球", "拍卖会"]);
}

#[test]
fn test_cut_no_hmm() {
    let jieba = small();
    let words = cut(&jieba, "abc网球拍卖会def", false);
    assert_eq!(words, vec!["abc", "网球", "拍卖会", "def"]);
}

#[test]
fn test_cut_with_hmm() {
    let jieba = small();
    let words = cut(&jieba, "我们中出了一个叛徒", false);
    assert_eq!(words, vec!["我们", "中", "出", "了", "一个", "叛徒"]);
    let words = cut(&jieba, "我们中出了一个叛徒", true);
    assert_eq!(words, vec!["我们", "中出", "了", "一个", "叛徒"]);
}

#[test]
fn unknown_run_is_left_open() {
    let jieba = small();
    let chars = to_chars("我们中出了一个叛徒");
    let dag = jieba.dag(&chars);
    let route = solve(&jieba, &chars, &dag);
    let pieces: Vec<(String, bool)> =
        jieba.cut_dag_hmm(&chars, &route).into_iter().map(|p: Piece| (p.text, p.settled)).collect();
    assert_eq!(
        pieces,
        vec![
            ("我们".to_string(), true),
            ("中出了".to_string(), false),
            ("一个".to_string(), true),
            ("叛徒".to_string(), true),
        ]
    );
}

#[test]
fn stored_run_is_cut_into_characters() {
    let mut jieba = Jieba::empty();
    jieba.insert("甲乙丙", 5);
    let chars = to_chars("甲乙");
    let pieces: Vec<(String, bool)> =
        jieba.cut_dag_hmm(&chars, &vec![0, 1]).into_iter().map(|p| (p.text, p.settled)).collect();
    assert_eq!(pieces, vec![("甲".to_string(), true), ("乙".to_string(), true)]);
    let chars = to_chars("甲");
    let pieces: Vec<(String, bool)> =
        jieba.cut_dag_hmm(&chars, &vec![0]).into_iter().map(|p| (p.text, p.settled)).collect();
    assert_eq!(pieces, vec![("甲".to_string(), true)]);
}

#[test]
fn concatenation_is_kept() {
    let jieba = small();
    for s in ["", "我们 是\r\n abc-1.5% 的网球拍!!  在", "\t\t", "x", "，。"] {
        for hmm in [false, true] {
            let words = cut(&jieba, s, hmm);
            assert_eq!(words.concat(), s);
            assert!(words.iter().all(|w| !w.is_empty()));
            assert_eq!(words, cut(&jieba, s, hmm));
            assert_eq!(words, cut_in_steps(&jieba, s, hmm));
        }
    }
}

#[test]
fn empty_input_gives_no_token() {
    let jieba = small();
    assert!(cut(&jieba, "", true).is_empty());
    assert!(jieba.dag(&Vec::new()).is_empty());
    assert!(jieba.cut_all_internal("").is_empty());
}

#[test]
fn dag_lists_ascend_and_are_not_empty() {
    let jieba = small();
    let chars = to_chars("我们在网球拍卖会x");
    let dag = jieba.dag(&chars);
    assert_eq!(dag.len(), chars.len());
    for (k, ends) in dag.iter().enumerate() {
        let list = ends.to_vec();
        assert_eq!(ends.len(), list.len());
        assert_eq!(ends.get(0), Some(list[0]));
        assert_eq!(ends.get(list.len()), None);
        assert!(!list.is_empty());
        assert!(list[0] >= k);
        assert!(list.windows(2).all(|w| w[0] < w[1]));
        assert!(list.iter().all(|&e| e < chars.len()));
    }
    assert_eq!(dag[chars.len() - 1].to_vec(), vec![chars.len() - 1]);
}

#[test]
fn ascii_letters_and_digits_are_joined() {
    let jieba = small();
    let chars = to_chars("ab1网");
    let words = jieba.cut_dag_no_hmm(&chars, &vec![0, 1, 2, 3]);
    assert_eq!(words, vec!["ab1", "网"]);
    let chars = to_chars("a.b");
    let words = jieba.cut_dag_no_hmm(&chars, &vec![0, 1, 2]);
    assert_eq!(words, vec!["a", ".", "b"]);
}

#[test]
fn blocks_follow_the_character_classes() {
    let chars = to_chars("ab-c 网球!d");
    let blocks = split_blocks(&chars);
    assert_eq!(
        blocks,
        vec![
            Block { start: 0, end: 4, dict: true },
            Block { start: 4, end: 5, dict: false },
            Block { start: 5, end: 7, dict: true },
            Block { start: 7, end: 8, dict: false },
            Block { start: 8, end: 9, dict: true },
        ]
    );
    assert!(split_blocks(&Vec::new()).is_empty());
    let edge = to_chars("\u{4E00}\u{9FD5}\u{9FD6}\u{4DFF}+#&._%");
    let blocks = split_blocks(&edge);
    assert_eq!(
        blocks,
        vec![
            Block { start: 0, end: 2, dict: true },
            Block { start: 2, end: 4, dict: false },
            Block { start: 4, end: 10, dict: true },
        ]
    );
}

#[test]
fn white_space_runs_are_single_tokens() {
    let words = cut_other(&to_chars("，  \r\n。！\u{3000}"));
    assert_eq!(words, vec!["，", "  \r\n", "。", "！", "\u{3000}"]);
}

#[test]
fn states_divide_a_run() {
    let run = to_chars("甲乙丙丁戊");
    let words = cut_by_states(&run, &vec![State::B, State::M, State::E, State::S, State::B]);
    assert_eq!(words, vec!["甲乙丙", "丁", "戊"]);
    let words = cut_by_states(&run, &vec![State::B, State::E, State::B, State::M, State::M]);
    assert_eq!(words, vec!["甲乙", "丙丁戊"]);
}

#[test]
fn routes_are_checked_against_the_graph() {
    let jieba = small();
    let chars = to_chars("网球拍卖会");
    let dag = jieba.dag(&chars);
    assert!(jieba::cut::route_follows(&vec![1, 2, 4, 3, 4], &dag));
    assert!(jieba::cut::route_follows(&vec![2, 1, 2, 3, 4, 0], &dag));
    assert!(!jieba::cut::route_follows(&vec![3, 1, 2, 3, 4], &dag));
    assert!(!jieba::cut::route_follows(&vec![1, 2, 4, 3], &dag));
    assert!(jieba::cut::route_follows(&Vec::new(), &Vec::new()));
}

#[test]
fn other_routes_give_other_cuts() {
    let jieba = small();
    let first = |_: &Vec<char>, dag: &Vec<Ends>| dag.iter().map(|l| l.to_vec()[0]).collect();
    let words = jieba.cut("网球拍卖会", false, &first, &decode);
    assert_eq!(words, vec!["网", "球", "拍", "卖", "会"]);
    let last = |_: &Vec<char>, dag: &Vec<Ends>| {
        dag.iter().map(|l| l.to_vec()[l.len() - 1]).collect()
    };
    let words = jieba.cut("网球拍卖会", false, &last, &decode);
    assert_eq!(words, vec!["网球拍", "卖", "会"]);
}
