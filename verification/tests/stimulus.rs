use ptg::cli::ImageDetail;
use ptg::stimulus::{stimulus_from, Stimulus, StimulusPart};

#[test]
fn text_stimulus_without_images() -> Result<(), String> {
    let s = stimulus_from("hello".to_string(), &Vec::new(), "bogus")?;
    assert!(!s.is_multimodal());
    assert_eq!(s.text_str(), "hello");
    assert!(matches!(Stimulus::text("x".to_string()), Stimulus::Text(t) if t == "x"));
    Ok(())
}

#[test]
fn multimodal_stimulus_keeps_urls_in_order() -> Result<(), String> {
    let urls = vec!["https://a/1.png".to_string(), "data:image/png;base64,AA".to_string()];
    let s = stimulus_from("look".to_string(), &urls, "HIGH")?;
    assert!(s.is_multimodal());
    assert_eq!(s.text_str(), "look");
    match s {
        Stimulus::Multimodal { text, parts } => {
            assert_eq!(text, "look");
            let got: Vec<(String, ImageDetail)> = parts
                .into_iter()
                .map(|p| match p {
                    StimulusPart::ImageUrl { image_url } => (image_url.url, image_url.detail),
                })
                .collect();
            assert_eq!(got, vec![(urls[0].clone(), ImageDetail::High), (urls[1].clone(), ImageDetail::High)]);
        }
        Stimulus::Text(_) => panic!("expected a multimodal stimulus"),
    }
    Ok(())
}

#[test]
fn bad_detail_is_refused_only_with_images() {
    let urls = vec!["https://a".to_string()];
    assert_eq!(
        stimulus_from("t".to_string(), &urls, "Medium").err(),
        Some("invalid --image-detail `medium` (low|high|auto)".to_string())
    );
    assert_eq!(ImageDetail::Low.as_str(), "low");
    assert_eq!(ImageDetail::Auto.as_str(), "auto");
}
