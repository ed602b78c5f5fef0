use ferrum_ai::special_iterator::{
    SpeciaStrDivideCustom, SpecialStr, SpecialStrClump, SpecialStrDivideall,
};

#[test]
fn divide_n_print() {
    let input = "` i love mine, too . happy motherï¿½s day to all";
    let mut new_one = SpeciaStrDivideCustom::new(&input, vec![' ', '¿']);

    while let Some(i) = new_one.next() {
        println!("{} |||| ", i);
    }
}

#[test]
fn divide_n_print_2() {
    let input = "hvcvk (vuk == gvyv'' jvv( hvktvk!";
    let mut new_one = SpecialStrDivideall::new(&input);

    let mut temp: Vec<&str> = Vec::new();
    while let Some(i) = new_one.next() {
        temp.push(i);
    }
    println!("{:?}", temp);

    let mut new_one = SpecialStrClump::new(&input);

    let mut temp: Vec<&str> = Vec::new();
    while let Some(i) = new_one.next() {
        temp.push(i);
    }
    println!("{:?}", temp);
}

#[test]
fn divide_n_print_3() {
    let input = "` i love mine, too . happy motherï¿½s day to all";
    let mut new_one = SpecialStr::new(&input);

    let mut temp: Vec<&str> = Vec::new();
    while let Some(i) = new_one.next() {
        temp.push(i);
    }

    assert_eq!(
        temp,
        vec![
            "`", "i", "love", "mine", ",", "too", ".", "happy", "mother", "ï", "¿", "½", "s",
            "day", "to", "all"
        ]
    );
}

#[test]
fn divide_n_print_4() {
    let input = "` i love mine, too . happy motherï¿½s day to all";
    let mut new_one = SpecialStr::new(&input);

    let mut temp: Vec<String> = Vec::new();
    while let Some(a_str) = new_one.next() {
        temp.push(a_str.to_string());
    }

    assert_eq!(
        temp,
        vec![
            "`", "i", "love", "mine", ",", "too", ".", "happy", "mother", "ï", "¿", "½", "s",
            "day", "to", "all"
        ]
    );
}

#[test]
fn divide_n_print_5() {
    let input = "తెలుగు భాష దక్షిణ భారతదేశంలో మాతృభాషగా ప్రసిద్ధంగా ఉంది. ఈ భాష తెలుగు లిపితో రాసుకొనబడతాయి. ఇది కవిత, సాహిత్యం, మరియు కళాశిల్పం లో మంచి పరిణామం చేస్తుంది.";
    let mut new_one = SpecialStrClump::new(&input);
    let mut temp: Vec<String> = Vec::new();
    while let Some(str_) = new_one.next() {
        temp.push(str_.to_owned());
    }
    assert_eq!(
        temp,
        vec![
            "తెలుగు",
            "భాష",
            "దక్షిణ",
            "భారతదేశంలో",
            "మాతృభాషగా",
            "ప్రసిద్ధంగా",
            "ఉంది.",
            "ఈ",
            "భాష",
            "తెలుగు",
            "లిపితో",
            "రాసుకొనబడతాయి.",
            "ఇది",
            "కవిత,",
            "సాహిత్యం,",
            "మరియు",
            "కళాశిల్పం",
            "లో",
            "మంచి",
            "పరిణామం",
            "చేస్తుంది."
        ]
    );
}

#[test]
fn opening_tokenising_and_traingin() {
    let start_time = std::time::Instant::now();

    println!("Task completed in : {:?}", start_time.elapsed());
}
