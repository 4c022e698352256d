use nlp100_rust::chapter03::answer::{
    basic_info_from, block_entries, column_of, extract_basic_info, extract_groups, extract_categories, extract_category_lines, extract_files,
    extract_sections, flag_request, get_country_flag_url, load_json, load_json_checked,
    resolve_image_url,
    section_from, template_entries, ApiError, ApiReply, Article, BasicInfo, Cleaner, LinkCleaner,
    MarkupError, MediaWikiResponse, NoneCleaner, Section, StrongCleaner, TemplateEntry,
};
use nlp100_rust::json::{Json, JsonError};

const KEYWORD: &str = "イギリス";

// The sample article: its basic information template, headings, file
// references and category declarations.

fn sample_category_lines() -> Vec<&'static str> {
    vec![
        "[[Category:イギリス|*]]",
        "[[Category:イギリス連邦加盟国]]",
        "[[Category:英連邦王国|*]]",
        "[[Category:G8加盟国]]",
        "[[Category:欧州連合加盟国|元]]",
        "[[Category:海洋国家]]",
        "[[Category:現存する君主国]]",
        "[[Category:島国]]",
        "[[Category:1801年に成立した国家・領域]]",
    ]
}

fn sample_markup() -> String {
    let mut text = String::from("{{redirect|UK}}\n{{基礎情報 国\n");
    for (key, value) in expected_lines_25() {
        text.push_str(&format!("|{} = {}\n", key, value));
    }
    text.push_str("}}\n\n'''グレートブリテン及び北アイルランド連合王国'''は、[[ヨーロッパ]]の国である。\n");
    let files = expected_lines_24();
    let mut next_file = 2;
    for (n, (level, heading)) in expected_lines_23().into_iter().enumerate() {
        let marks = "=".repeat(level as usize + 1);
        if n % 2 == 0 {
            text.push_str(&format!("{}{}{}\n", marks, heading, marks));
        } else {
            text.push_str(&format!("{} {} {}\n", marks, heading, marks));
        }
        text.push_str("本文。\n");
        if next_file < files.len() {
            if n % 3 == 0 {
                text.push_str(&format!("[[ファイル:{}|thumb|200px|説明]]\n", files[next_file]));
            } else {
                text.push_str(&format!("文中の[[ファイル:{}]]参照。\n", files[next_file]));
            }
            next_file += 1;
        }
    }
    text.push_str("{{Normdaten}}\n{{DEFAULTSORT:いきりす}}\n");
    for line in sample_category_lines() {
        text.push_str(line);
        text.push('\n');
    }
    text
}

fn sample_dump() -> Vec<String> {
    let mut lines = Vec::new();
    for (title, text) in [
        ("エジプト", "{{基礎情報 国\n|略名 = エジプト\n}}\n[[Category:エジプト|*]]".to_string()),
        (KEYWORD, sample_markup()),
        ("日本", "==概要==\n[[Category:日本|*]]".to_string()),
    ] {
        let mut object = serde_json::Map::new();
        object.insert("title".to_string(), serde_json::Value::String(title.to_string()));
        object.insert("text".to_string(), serde_json::Value::String(text));
        lines.push(serde_json::Value::Object(object).to_string());
    }
    lines
}

fn load_sample() -> Vec<Article> {
    load_json(&sample_dump(), KEYWORD)
}

fn entries_of(info: &BasicInfo) -> Vec<(String, String)> {
    (0..info.len()).map(|i| (info.key_at(i).clone(), info.value_at(i).clone())).collect()
}

fn article(text: &str) -> Article {
    Article { title: String::from("t"), text: String::from(text) }
}

#[test]
fn success_20_load_json() {
    let articles = load_sample();
    assert_eq!(1, articles.len());
    assert_eq!(KEYWORD, articles[0].title);
    println!("{}", articles[0].text);
}

#[test]
fn success_21_extract_category_lines() {
    let articles = load_sample();
    let article = articles.get(0);
    let expected_lines = sample_category_lines();

    match article {
        None => panic!("fail to load {} article", KEYWORD),
        Some(target) => {
            let category_lines = extract_category_lines(target).unwrap();
            assert_eq!(expected_lines.len(), category_lines.len());
            for actual in category_lines {
                assert_eq!(true, actual.contains("Category"));
                assert!(expected_lines.contains(&actual.as_str()));
            }
        }
    }
}

#[test]
fn success_22_extract_categories() {
    let articles = load_sample();
    let article = articles.get(0);
    let expected_lines = vec![
        "イギリス",
        "イギリス連邦加盟国",
        "英連邦王国",
        "G8加盟国",
        "欧州連合加盟国",
        "海洋国家",
        "現存する君主国",
        "島国",
        "1801年に成立した国家・領域",
    ];
    match article {
        None => panic!("fail to load {} article", KEYWORD),
        Some(target) => {
            let categories = extract_categories(target).unwrap();
            assert_eq!(expected_lines.len(), categories.len());
            for actual in categories.iter() {
                assert!(expected_lines.contains(&actual.as_str()));
                assert!(
                    expected_lines.iter().any(|e| e == &actual.as_str()),
                    "{} fails",
                    actual
                );
            }
            assert_eq!(expected_lines, categories);
        }
    }
}

fn expected_lines_23() -> Vec<(u8, &'static str)> {
    vec![
        (1, "国名"),
        (1, "歴史"),
        (1, "地理"),
        (2, "主要都市"),
        (2, "気候"),
        (1, "政治"),
        (2, "元首"),
        (2, "法"),
        (2, "内政"),
        (2, "地方行政区分"),
        (2, "外交・軍事"),
        (1, "経済"),
        (2, "鉱業"),
        (2, "農業"),
        (2, "貿易"),
        (2, "不動産"),
        (2, "エネルギー政策"),
        (2, "通貨"),
        (2, "企業"),
        (3, "通信"),
        (1, "交通"),
        (2, "道路"),
        (2, "鉄道"),
        (2, "海運"),
        (2, "航空"),
        (1, "科学技術"),
        (1, "国民"),
        (2, "言語"),
        (2, "宗教"),
        (2, "婚姻"),
        (2, "移住"),
        (2, "教育"),
        (2, "医療"),
        (1, "文化"),
        (2, "食文化"),
        (2, "文学"),
        (2, "哲学"),
        (2, "音楽"),
        (3, "ポピュラー音楽"),
        (2, "映画"),
        (2, "コメディ"),
        (2, "国花"),
        (2, "世界遺産"),
        (2, "祝祭日"),
        (2, "スポーツ"),
        (3, "サッカー"),
        (3, "クリケット"),
        (3, "競馬"),
        (3, "モータースポーツ"),
        (3, "野球"),
        (3, "カーリング"),
        (3, "自転車競技"),
        (1, "脚注"),
        (1, "関連項目"),
        (1, "外部リンク"),
    ]
}

#[test]
fn success_23_extract_sections() {
    let articles = load_sample();
    let article = articles.get(0);
    let expected_lines = expected_lines_23();
    match article {
        None => panic!("fail to load {} article", KEYWORD),
        Some(target) => {
            let sections: Vec<Section> = extract_sections(target).unwrap();
            assert_eq!(expected_lines.len(), sections.len());
            sections
                .iter()
                .zip(expected_lines)
                .for_each(|(actual, expect)| {
                    assert_eq!(&expect.1, &actual.section.as_str().trim(), "{}", &expect.1);
                    assert_eq!(&expect.0, &actual.level, "{}", &expect.1);
                });
        }
    }
}

fn expected_lines_24() -> Vec<&'static str> {
    vec![
        "Royal Coat of Arms of the United Kingdom.svg",
        "United States Navy Band - God Save the Queen.ogg",
        "Descriptio Prime Tabulae Europae.jpg",
        "Lenepveu, Jeanne d'Arc au siège d'Orléans.jpg",
        "London.bankofengland.arp.jpg",
        "Battle of Waterloo 1815.PNG",
        "Uk topo en.jpg",
        "BenNevis2005.jpg",
        "Population density UK 2011 census.png",
        "2019 Greenwich Peninsula & Canary Wharf.jpg",
        "Birmingham Skyline from Edgbaston Cricket Ground crop.jpg",
        "Leeds CBD at night.jpg",
        "Glasgow and the Clyde from the air (geograph 4665720).jpg",
        "Palace of Westminster, London - Feb 2007.jpg",
        "Scotland Parliament Holyrood.jpg",
        "Donald Trump and Theresa May (33998675310) (cropped).jpg",
        "Soldiers Trooping the Colour, 16th June 2007.jpg",
        "City of London skyline from London City Hall - Oct 2008.jpg",
        "Oil platform in the North SeaPros.jpg",
        "Eurostar at St Pancras Jan 2008.jpg",
        "Heathrow Terminal 5C Iwelumo-1.jpg",
        "Airbus A380-841 G-XLEB British Airways (10424102995).jpg",
        "UKpop.svg",
        "Anglospeak.svg",
        "Royal Aberdeen Children's Hospital.jpg",
        "CHANDOS3.jpg",
        "The Fabs.JPG",
        "Wembley Stadium, illuminated.jpg",
    ]
}

#[test]
fn success_24_extract_files() {
    let articles = load_sample();
    let article = articles.get(0);
    let expected_lines = expected_lines_24();
    match article {
        None => panic!("fail to load {} article", KEYWORD),
        Some(target) => {
            let files = extract_files(target).unwrap();
            assert_eq!(expected_lines.len(), files.len());
            for actual in files {
                assert!(expected_lines.contains(&actual.as_str()));
                assert!(
                    expected_lines.iter().any(|e| e == &actual.as_str()),
                    "{} fails",
                    actual
                );
                println!("[{}]", actual);
            }
        }
    }
}

fn expected_lines_25() -> Vec<(&'static str, &'static str)> {
    vec![
        ("略名", "イギリス"),
        ("日本語国名", "グレートブリテン及び北アイルランド連合王国"),
        ("公式国名", "{{lang|en|United Kingdom of Great Britain and Northern Ireland}}<ref>英語以外での正式国名:<br />
*{{lang|gd|An Rìoghachd Aonaichte na Breatainn Mhòr agus Eirinn mu Thuath}}（[[スコットランド・ゲール語]]）
*{{lang|cy|Teyrnas Gyfunol Prydain Fawr a Gogledd Iwerddon}}（[[ウェールズ語]]）
*{{lang|ga|Ríocht Aontaithe na Breataine Móire agus Tuaisceart na hÉireann}}（[[アイルランド語]]）
*{{lang|kw|An Rywvaneth Unys a Vreten Veur hag Iwerdhon Glédh}}（[[コーンウォール語]]）
*{{lang|sco|Unitit Kinrick o Great Breetain an Northren Ireland}}（[[スコットランド語]]）
**{{lang|sco|Claught Kängrick o Docht Brätain an Norlin Airlann}}、{{lang|sco|Unitet Kängdom o Great Brittain an Norlin Airlann}}（アルスター・スコットランド語）</ref>"),
        ("国旗画像", "Flag of the United Kingdom.svg"),
        ("国章画像", "[[ファイル:Royal Coat of Arms of the United Kingdom.svg|85px|イギリスの国章]]"),
        ("国章リンク", "（[[イギリスの国章|国章]]）"),
        ("標語", "{{lang|fr|[[Dieu et mon droit]]}}<br />（[[フランス語]]:[[Dieu et mon droit|神と我が権利]]）"),
        ("国歌", "[[女王陛下万歳|{{lang|en|God Save the Queen}}]]{{en icon}}<br />''神よ女王を護り賜え''<br />{{center|[[ファイル:United States Navy Band - God Save the Queen.ogg]]}}"),
        ("地図画像", "Europe-UK.svg"),
        ("位置画像", "United Kingdom (+overseas territories) in the World (+Antarctica claims).svg"),
        ("公用語", "[[英語]]"),
        ("首都", "[[ロンドン]]（事実上）"),
        ("最大都市", "ロンドン"),
        ("元首等肩書", "[[イギリスの君主|女王]]"),
        ("元首等氏名", "[[エリザベス2世]]"),
        ("首相等肩書", "[[イギリスの首相|首相]]"),
        ("首相等氏名", "[[ボリス・ジョンソン]]"),
        ("他元首等肩書1", "[[貴族院 (イギリス)|貴族院議長]]"),
        ("他元首等氏名1", "[[:en:Norman Fowler, Baron Fowler|ノーマン・ファウラー]]"),
        ("他元首等肩書2", "[[庶民院 (イギリス)|庶民院議長]]"),
        ("他元首等氏名2", "{{仮リンク|リンゼイ・ホイル|en|Lindsay Hoyle}}"),
        ("他元首等肩書3", "[[連合王国最高裁判所|最高裁判所長官]]"),
        ("他元首等氏名3", "[[:en:Brenda Hale, Baroness Hale of Richmond|ブレンダ・ヘイル]]"),
        ("面積順位", "76"),
        ("面積大きさ", "1 E11"),
        ("面積値", "244,820"),
        ("水面積率", "1.3%"),
        ("人口統計年", "2018"),
        ("人口順位", "22"),
        ("人口大きさ", "1 E7"),
        ("人口値", "6643万5600<ref>{{Cite web|url=https://www.ons.gov.uk/peoplepopulationandcommunity/populationandmigration/populationestimates|title=Population estimates - Office for National Statistics|accessdate=2019-06-26|date=2019-06-26}}</ref>"),
        ("人口密度値", "271"),
        ("GDP統計年元", "2012"),
        ("GDP値元", "1兆5478億<ref name=\"imf-statistics-gdp\">[http://www.imf.org/external/pubs/ft/weo/2012/02/weodata/weorept.aspx?pr.x=70&pr.y=13&sy=2010&ey=2012&scsm=1&ssd=1&sort=country&ds=.&br=1&c=112&s=NGDP%2CNGDPD%2CPPPGDP%2CPPPPC&grp=0&a=IMF>Data and Statistics>World Economic Outlook Databases>By Countrise>United Kingdom]</ref>"),
        ("GDP統計年MER", "2012"),
        ("GDP順位MER", "6"),
        ("GDP値MER", "2兆4337億<ref name=\"imf-statistics-gdp\" />"),
        ("GDP統計年", "2012"),
        ("GDP順位", "6"),
        ("GDP値", "2兆3162億<ref name=\"imf-statistics-gdp\" />"),
        ("GDP/人", "36,727<ref name=\"imf-statistics-gdp\" />"),
        ("建国形態", "建国"),
        ("確立形態1", "[[イングランド王国]]／[[スコットランド王国]]<br />（両国とも[[合同法 (1707年)|1707年合同法]]まで）"),
        ("確立年月日1", "927年／843年"),
        ("確立形態2", "[[グレートブリテン王国]]成立<br />（1707年合同法）"),
        ("確立年月日2", "1707年{{0}}5月{{0}}1日"),
        ("確立形態3", "[[グレートブリテン及びアイルランド連合王国]]成立<br />（[[合同法 (1800年)|1800年合同法]]）"),
        ("確立年月日3", "1801年{{0}}1月{{0}}1日"),
        ("確立形態4", "現在の国号「'''グレートブリテン及び北アイルランド連合王国'''」に変更"),
        ("確立年月日4", "1927年{{0}}4月12日"),
        ("通貨", "[[スターリング・ポンド|UKポンド]] (£)"),
        ("通貨コード", "GBP"),
        ("時間帯", "±0"),
        ("夏時間", "+1"),
        ("ISO 3166-1", "GB / GBR"),
        ("ccTLD", "[[.uk]] / [[.gb]]<ref>使用は.ukに比べ圧倒的少数。</ref>"),
        ("国際電話番号", "44"),
        ("注記", "<references/>"),
    ]
}

#[test]
fn success_25_extract_basic_info() {
    let articles = load_sample();
    let article = articles.get(0);
    let expected_lines = expected_lines_25();
    match article {
        None => panic!("fail to load {} article", KEYWORD),
        Some(target) => {
            let basic_info = extract_basic_info(target, NoneCleaner {}).unwrap();
            assert_eq!(expected_lines.len(), basic_info.len());
            for actual in entries_of(&basic_info) {
                let hoge = (actual.0.as_str(), actual.1.as_str());
                assert!(expected_lines.contains(&hoge), "{:?}", hoge);
                println!("[{:?}]", actual);
            }
        }
    }
}

fn expected_lines_26() -> Vec<(&'static str, &'static str)> {
    vec![
        ("略名", "イギリス"),
        ("日本語国名", "グレートブリテン及び北アイルランド連合王国"),
        ("公式国名", "{{lang|en|United Kingdom of Great Britain and Northern Ireland}}<ref>英語以外での正式国名:<br />
*{{lang|gd|An Rìoghachd Aonaichte na Breatainn Mhòr agus Eirinn mu Thuath}}（[[スコットランド・ゲール語]]）
*{{lang|cy|Teyrnas Gyfunol Prydain Fawr a Gogledd Iwerddon}}（[[ウェールズ語]]）
*{{lang|ga|Ríocht Aontaithe na Breataine Móire agus Tuaisceart na hÉireann}}（[[アイルランド語]]）
*{{lang|kw|An Rywvaneth Unys a Vreten Veur hag Iwerdhon Glédh}}（[[コーンウォール語]]）
*{{lang|sco|Unitit Kinrick o Great Breetain an Northren Ireland}}（[[スコットランド語]]）
**{{lang|sco|Claught Kängrick o Docht Brätain an Norlin Airlann}}、{{lang|sco|Unitet Kängdom o Great Brittain an Norlin Airlann}}（アルスター・スコットランド語）</ref>"),
        ("国旗画像", "Flag of the United Kingdom.svg"),
        ("国章画像", "[[ファイル:Royal Coat of Arms of the United Kingdom.svg|85px|イギリスの国章]]"),
        ("国章リンク", "（[[イギリスの国章|国章]]）"),
        ("標語", "{{lang|fr|[[Dieu et mon droit]]}}<br />（[[フランス語]]:[[Dieu et mon droit|神と我が権利]]）"),
        ("国歌", "[[女王陛下万歳|{{lang|en|God Save the Queen}}]]{{en icon}}<br />神よ女王を護り賜え<br />{{center|[[ファイル:United States Navy Band - God Save the Queen.ogg]]}}"),
        ("地図画像", "Europe-UK.svg"),
        ("位置画像", "United Kingdom (+overseas territories) in the World (+Antarctica claims).svg"),
        ("公用語", "[[英語]]"),
        ("首都", "[[ロンドン]]（事実上）"),
        ("最大都市", "ロンドン"),
        ("元首等肩書", "[[イギリスの君主|女王]]"),
        ("元首等氏名", "[[エリザベス2世]]"),
        ("首相等肩書", "[[イギリスの首相|首相]]"),
        ("首相等氏名", "[[ボリス・ジョンソン]]"),
        ("他元首等肩書1", "[[貴族院 (イギリス)|貴族院議長]]"),
        ("他元首等氏名1", "[[:en:Norman Fowler, Baron Fowler|ノーマン・ファウラー]]"),
        ("他元首等肩書2", "[[庶民院 (イギリス)|庶民院議長]]"),
        ("他元首等氏名2", "{{仮リンク|リンゼイ・ホイル|en|Lindsay Hoyle}}"),
        ("他元首等肩書3", "[[連合王国最高裁判所|最高裁判所長官]]"),
        ("他元首等氏名3", "[[:en:Brenda Hale, Baroness Hale of Richmond|ブレンダ・ヘイル]]"),
        ("面積順位", "76"),
        ("面積大きさ", "1 E11"),
        ("面積値", "244,820"),
        ("水面積率", "1.3%"),
        ("人口統計年", "2018"),
        ("人口順位", "22"),
        ("人口大きさ", "1 E7"),
        ("人口値", "6643万5600<ref>{{Cite web|url=https://www.ons.gov.uk/peoplepopulationandcommunity/populationandmigration/populationestimates|title=Population estimates - Office for National Statistics|accessdate=2019-06-26|date=2019-06-26}}</ref>"),
        ("人口密度値", "271"),
        ("GDP統計年元", "2012"),
        ("GDP値元", "1兆5478億<ref name=\"imf-statistics-gdp\">[http://www.imf.org/external/pubs/ft/weo/2012/02/weodata/weorept.aspx?pr.x=70&pr.y=13&sy=2010&ey=2012&scsm=1&ssd=1&sort=country&ds=.&br=1&c=112&s=NGDP%2CNGDPD%2CPPPGDP%2CPPPPC&grp=0&a=IMF>Data and Statistics>World Economic Outlook Databases>By Countrise>United Kingdom]</ref>"),
        ("GDP統計年MER", "2012"),
        ("GDP順位MER", "6"),
        ("GDP値MER", "2兆4337億<ref name=\"imf-statistics-gdp\" />"),
        ("GDP統計年", "2012"),
        ("GDP順位", "6"),
        ("GDP値", "2兆3162億<ref name=\"imf-statistics-gdp\" />"),
        ("GDP/人", "36,727<ref name=\"imf-statistics-gdp\" />"),
        ("建国形態", "建国"),
        ("確立形態1", "[[イングランド王国]]／[[スコットランド王国]]<br />（両国とも[[合同法 (1707年)|1707年合同法]]まで）"),
        ("確立年月日1", "927年／843年"),
        ("確立形態2", "[[グレートブリテン王国]]成立<br />（1707年合同法）"),
        ("確立年月日2", "1707年{{0}}5月{{0}}1日"),
        ("確立形態3", "[[グレートブリテン及びアイルランド連合王国]]成立<br />（[[合同法 (1800年)|1800年合同法]]）"),
        ("確立年月日3", "1801年{{0}}1月{{0}}1日"),
        ("確立形態4", "現在の国号「グレートブリテン及び北アイルランド連合王国」に変更"),
        ("確立年月日4", "1927年{{0}}4月12日"),
        ("通貨", "[[スターリング・ポンド|UKポンド]] (£)"),
        ("通貨コード", "GBP"),
        ("時間帯", "±0"),
        ("夏時間", "+1"),
        ("ISO 3166-1", "GB / GBR"),
        ("ccTLD", "[[.uk]] / [[.gb]]<ref>使用は.ukに比べ圧倒的少数。</ref>"),
        ("国際電話番号", "44"),
        ("注記", "<references/>"),
    ]
}

#[test]
fn success_26_remove_strong() {
    let articles = load_sample();
    let article = articles.get(0);
    let expected_lines = expected_lines_26();
    match article {
        None => panic!("fail to load {} article", KEYWORD),
        Some(target) => {
            let basic_info = extract_basic_info(target, StrongCleaner {}).unwrap();
            assert_eq!(expected_lines.len(), basic_info.len());
            for actual in entries_of(&basic_info) {
                let hoge = (actual.0.as_str(), actual.1.as_str());
                assert!(expected_lines.contains(&hoge), "{:?}", hoge);
                println!("[{:?}]", actual);
            }
        }
    }
}

fn expected_lines_27() -> Vec<(&'static str, &'static str)> {
    vec![
        ("略名", "イギリス"),
        ("日本語国名", "グレートブリテン及び北アイルランド連合王国"),
        ("公式国名", "{{lang|en|United Kingdom of Great Britain and Northern Ireland}}<ref>英語以外での正式国名:<br />
*{{lang|gd|An Rìoghachd Aonaichte na Breatainn Mhòr agus Eirinn mu Thuath}}（スコットランド・ゲール語）
*{{lang|cy|Teyrnas Gyfunol Prydain Fawr a Gogledd Iwerddon}}（ウェールズ語）
*{{lang|ga|Ríocht Aontaithe na Breataine Móire agus Tuaisceart na hÉireann}}（アイルランド語）
*{{lang|kw|An Rywvaneth Unys a Vreten Veur hag Iwerdhon Glédh}}（コーンウォール語）
*{{lang|sco|Unitit Kinrick o Great Breetain an Northren Ireland}}（スコットランド語）
**{{lang|sco|Claught Kängrick o Docht Brätain an Norlin Airlann}}、{{lang|sco|Unitet Kängdom o Great Brittain an Norlin Airlann}}（アルスター・スコットランド語）</ref>"),
        ("国旗画像", "Flag of the United Kingdom.svg"),
        ("国章画像", "ファイル:Royal Coat of Arms of the United Kingdom.svg|85px|イギリスの国章"),
        ("国章リンク", "（イギリスの国章|国章）"),
        ("標語", "{{lang|fr|Dieu et mon droit}}<br />（フランス語:Dieu et mon droit|神と我が権利）"),
        ("国歌", "女王陛下万歳|{{lang|en|God Save the Queen}}{{en icon}}<br />神よ女王を護り賜え<br />{{center|ファイル:United States Navy Band - God Save the Queen.ogg}}"),
        ("地図画像", "Europe-UK.svg"),
        ("位置画像", "United Kingdom (+overseas territories) in the World (+Antarctica claims).svg"),
        ("公用語", "英語"),
        ("首都", "ロンドン（事実上）"),
        ("最大都市", "ロンドン"),
        ("元首等肩書", "イギリスの君主|女王"),
        ("元首等氏名", "エリザベス2世"),
        ("首相等肩書", "イギリスの首相|首相"),
        ("首相等氏名", "ボリス・ジョンソン"),
        ("他元首等肩書1", "貴族院 (イギリス)|貴族院議長"),
        ("他元首等氏名1", ":en:Norman Fowler, Baron Fowler|ノーマン・ファウラー"),
        ("他元首等肩書2", "庶民院 (イギリス)|庶民院議長"),
        ("他元首等氏名2", "{{仮リンク|リンゼイ・ホイル|en|Lindsay Hoyle}}"),
        ("他元首等肩書3", "連合王国最高裁判所|最高裁判所長官"),
        ("他元首等氏名3", ":en:Brenda Hale, Baroness Hale of Richmond|ブレンダ・ヘイル"),
        ("面積順位", "76"),
        ("面積大きさ", "1 E11"),
        ("面積値", "244,820"),
        ("水面積率", "1.3%"),
        ("人口統計年", "2018"),
        ("人口順位", "22"),
        ("人口大きさ", "1 E7"),
        ("人口値", "6643万5600<ref>{{Cite web|url=https://www.ons.gov.uk/peoplepopulationandcommunity/populationandmigration/populationestimates|title=Population estimates - Office for National Statistics|accessdate=2019-06-26|date=2019-06-26}}</ref>"),
        ("人口密度値", "271"),
        ("GDP統計年元", "2012"),
        ("GDP値元", "1兆5478億<ref name=\"imf-statistics-gdp\">[http://www.imf.org/external/pubs/ft/weo/2012/02/weodata/weorept.aspx?pr.x=70&pr.y=13&sy=2010&ey=2012&scsm=1&ssd=1&sort=country&ds=.&br=1&c=112&s=NGDP%2CNGDPD%2CPPPGDP%2CPPPPC&grp=0&a=IMF>Data and Statistics>World Economic Outlook Databases>By Countrise>United Kingdom]</ref>"),
        ("GDP統計年MER", "2012"),
        ("GDP順位MER", "6"),
        ("GDP値MER", "2兆4337億<ref name=\"imf-statistics-gdp\" />"),
        ("GDP統計年", "2012"),
        ("GDP順位", "6"),
        ("GDP値", "2兆3162億<ref name=\"imf-statistics-gdp\" />"),
        ("GDP/人", "36,727<ref name=\"imf-statistics-gdp\" />"),
        ("建国形態", "建国"),
        ("確立形態1", "イングランド王国／スコットランド王国<br />（両国とも合同法 (1707年)|1707年合同法まで）"),
        ("確立年月日1", "927年／843年"),
        ("確立形態2", "グレートブリテン王国成立<br />（1707年合同法）"),
        ("確立年月日2", "1707年{{0}}5月{{0}}1日"),
        ("確立形態3", "グレートブリテン及びアイルランド連合王国成立<br />（合同法 (1800年)|1800年合同法）"),
        ("確立年月日3", "1801年{{0}}1月{{0}}1日"),
        ("確立形態4", "現在の国号「グレートブリテン及び北アイルランド連合王国」に変更"),
        ("確立年月日4", "1927年{{0}}4月12日"),
        ("通貨", "スターリング・ポンド|UKポンド (£)"),
        ("通貨コード", "GBP"),
        ("時間帯", "±0"),
        ("夏時間", "+1"),
        ("ISO 3166-1", "GB / GBR"),
        ("ccTLD", ".uk / .gb<ref>使用は.ukに比べ圧倒的少数。</ref>"),
        ("国際電話番号", "44"),
        ("注記", "<references/>"),
    ]
}

#[test]
fn success_27_remove_internal_link() {
    let articles = load_sample();
    let article = articles.get(0);
    let expected_lines = expected_lines_27();
    match article {
        None => panic!("fail to load {} article", KEYWORD),
        Some(target) => {
            let basic_info = extract_basic_info(
                target,
                LinkCleaner {
                    chain: StrongCleaner {},
                },
            )
            .unwrap();
            assert_eq!(expected_lines.len(), basic_info.len());
            for actual in entries_of(&basic_info) {
                let hoge = (actual.0.as_str(), actual.1.as_str());
                assert!(expected_lines.contains(&hoge), "{:?}", hoge);
                println!("[{:?}]", actual);
            }
        }
    }
}

fn sample_reply() -> ApiReply {
    ApiReply::Answered {
        status: 200,
        body: String::from(
            "{\"batchcomplete\":\"\",\"query\":{\"normalized\":[{\"from\":\"File:Flag of the United Kingdom.svg\",\"to\":\"File:Flag of the United Kingdom.svg\"}],\"pages\":{\"23473560\":{\"pageid\":23473560,\"ns\":6,\"title\":\"File:Flag of the United Kingdom.svg\",\"imagerepository\":\"local\",\"imageinfo\":[{\"url\":\"https://upload.wikimedia.org/wikipedia/en/a/ae/Flag_of_the_United_Kingdom.svg\",\"descriptionurl\":\"https://en.wikipedia.org/wiki/File:Flag_of_the_United_Kingdom.svg\",\"descriptionshorturl\":\"https://en.wikipedia.org/w/index.php?curid=23473560\"}]}}}}",
        ),
    }
}

#[test]
fn success_29_get_image_url() {
    let articles = load_sample();
    let article = articles.get(0);
    let expected_url =
        "https://upload.wikimedia.org/wikipedia/en/a/ae/Flag_of_the_United_Kingdom.svg";
    let basic_info = extract_basic_info(article.unwrap(), NoneCleaner {}).unwrap();
    match get_country_flag_url(&basic_info, &sample_reply()) {
        None => panic!("Cannot get image url..."),
        Some(url) => {
            assert_eq!(url, expected_url);
        }
    }
}

// ---- further cases ----

#[test]
fn lines_from_text_keeps_empty_lines() {
    assert_eq!(vec![""], article("").lines_from_text());
    assert_eq!(vec!["a", "", "b", ""], article("a\n\nb\n").lines_from_text());
    assert_eq!(vec!["a\r"], article("a\r").lines_from_text());
}

#[test]
fn load_json_filters_by_title_and_fails_on_a_bad_line() {
    let dump = sample_dump();
    let found = load_json(&dump, "日本");
    assert_eq!(1, found.len());
    assert_eq!("==概要==\n[[Category:日本|*]]", found[0].text);
    assert_eq!(0, load_json(&dump, "nowhere").len());
    assert_eq!(0, load_json(&Vec::new(), KEYWORD).len());

    let checked = load_json_checked(&dump, "日本").unwrap();
    assert_eq!(1, checked.len());
    assert_eq!("日本", checked[0].title);
    assert_eq!("==概要==\n[[Category:日本|*]]", checked[0].text);
    assert_eq!(0, load_json_checked(&Vec::new(), KEYWORD).unwrap().len());

    let mut broken = dump.clone();
    broken.push(String::from("{\"title\": \"x\""));
    assert_eq!(Some(JsonError::Syntax), load_json_checked(&broken, "日本").err());
    let mut missing = dump.clone();
    missing.insert(0, String::from("{\"title\": \"x\"}"));
    assert_eq!(Some(JsonError::Shape), load_json_checked(&missing, "日本").err());
    let mut wrong_kind = dump;
    wrong_kind.push(String::from("{\"title\": \"x\", \"text\": 3}"));
    assert_eq!(Some(JsonError::Shape), load_json_checked(&wrong_kind, "日本").err());
}

#[test]
fn categories_come_in_document_order_with_duplicates() {
    let a = article("x [[Category:B|*]] y\nno category\n[[Category:A]]\n[[Category:B]]");
    assert_eq!(vec!["B", "A", "B"], extract_categories(&a).unwrap());
    assert_eq!(
        vec!["x [[Category:B|*]] y", "[[Category:A]]", "[[Category:B]]"],
        extract_category_lines(&a).unwrap()
    );
    assert_eq!(0, extract_categories(&article("")).unwrap().len());
}

#[test]
fn sections_are_trimmed_and_levelled() {
    let a = article("== 国名 ==\ntext\n===主要都市===\n==== 深い ====\n= not a heading =");
    let sections = extract_sections(&a).unwrap();
    let got: Vec<(&str, u8)> = sections.iter().map(|s| (s.section.as_str(), s.level)).collect();
    assert_eq!(vec![("国名", 1), ("主要都市", 2), ("深い", 3)], got);
}

#[test]
fn section_level_must_fit() {
    let deep = format!("{}x{}", "=".repeat(256), "=".repeat(256));
    let sections = extract_sections(&article(&deep)).unwrap();
    assert_eq!(255, sections[0].level);
    let too_deep = format!("{}x{}", "=".repeat(257), "=".repeat(257));
    assert_eq!(
        Some(MarkupError::LevelOutOfRange),
        extract_sections(&article(&too_deep)).err()
    );
}

#[test]
fn files_stop_at_the_pipe_or_the_brackets() {
    let a = article("[[ファイル:a b.jpg|thumb]] and [[ファイル:c.ogg]]\n[[File:d.png]]");
    assert_eq!(vec!["a b.jpg", "c.ogg"], extract_files(&a).unwrap());
}

#[test]
fn a_match_without_the_wanted_group_is_refused() {
    let matches = vec![
        vec![Some(String::from("ab")), Some(String::from("a")), None],
        vec![Some(String::from("cd")), Some(String::from("c")), Some(String::from("d"))],
    ];
    assert_eq!(Some(vec![String::from("ab"), String::from("cd")]), column_of(&matches, 0));
    assert_eq!(Some(vec![String::from("a"), String::from("c")]), column_of(&matches, 1));
    assert_eq!(None, column_of(&matches, 2));
    assert_eq!(None, column_of(&matches, 3));
    assert_eq!(Some(Vec::new()), column_of(&Vec::new(), 5));
}

#[test]
fn cleaners_strip_emphasis_and_links() {
    let strong = StrongCleaner {};
    let link = LinkCleaner { chain: StrongCleaner {} };
    assert_eq!("a 'b' c", NoneCleaner {}.remove_markup("a 'b' c").unwrap());
    assert_eq!("text", strong.remove_markup("'''text'''").unwrap());
    assert_eq!("text", strong.remove_markup("''text''").unwrap());
    assert_eq!("text", strong.remove_markup("'''''text'''''").unwrap());
    assert_eq!("it's", strong.remove_markup("it's").unwrap());
    assert_eq!("'", strong.remove_markup("''''''").unwrap());
    assert_eq!("[[英語]]", strong.remove_markup("[[英語]]").unwrap());
    assert_eq!("英語", link.remove_markup("[[英語]]").unwrap());
    assert_eq!("a|b", link.remove_markup("[[a|b]]").unwrap());
    assert_eq!("x and y", link.remove_markup("''[[x]]'' and [[y]]").unwrap());
    assert_eq!("$link", link.remove_markup("$link").unwrap());
    assert_eq!("[[", link.remove_markup("[[").unwrap());
}

#[test]
fn template_entries_keep_duplicates_and_the_map_keeps_the_last() {
    let a = article("{{基礎情報 国\n|略名 = A\n|標語=''x''\n|\n|略名 = B\n}}\nrest");
    let entries = template_entries(&a).unwrap();
    let got: Vec<(&str, &str)> =
        entries.iter().map(|e| (e.key.as_str(), e.raw_value.as_str())).collect();
    assert_eq!(vec![("略名", "A"), ("標語", "''x''"), ("略名", "B")], got);

    let info = extract_basic_info(&a, StrongCleaner {}).unwrap();
    assert_eq!(
        vec![(String::from("標語"), String::from("x")), (String::from("略名"), String::from("B"))],
        entries_of(&info)
    );
    let none = extract_basic_info(&article("no template here"), NoneCleaner {}).unwrap();
    assert_eq!(0, none.len());
}

#[test]
fn flag_request_names_the_file() {
    let a = article("{{基礎情報 国\n|国旗画像 = Flag of X.svg\n}}\n");
    let info = extract_basic_info(&a, NoneCleaner {}).unwrap();
    let request = flag_request(&info).unwrap();
    assert_eq!("https://en.wikipedia.org/w/api.php", request.endpoint);
    let query: Vec<(&str, &str)> =
        request.query.iter().map(|(k, v)| (k.as_str(), v.as_str())).collect();
    assert_eq!(
        vec![
            ("action", "query"),
            ("format", "json"),
            ("prop", "imageinfo"),
            ("iiprop", "url"),
            ("titles", "File:Flag of X.svg"),
        ],
        query
    );
}

#[test]
fn flag_url_is_absent_without_the_flag_key() {
    let a = article("{{基礎情報 国\n|略名 = A\n}}\n");
    let info = extract_basic_info(&a, NoneCleaner {}).unwrap();
    assert!(flag_request(&info).is_none());
    assert_eq!(None, get_country_flag_url(&info, &sample_reply()));
    assert_eq!(None, get_country_flag_url(&info, &ApiReply::Failed));
}

#[test]
fn flag_url_is_a_well_formed_https_url_ending_in_svg() {
    let a = article("{{基礎情報 国\n|国旗画像 = Flag of the United Kingdom.svg\n}}\n");
    let info = extract_basic_info(&a, NoneCleaner {}).unwrap();
    let url = get_country_flag_url(&info, &sample_reply()).unwrap();
    assert!(url.starts_with("https://"));
    assert!(url.ends_with(".svg"));
}

#[test]
fn replies_that_name_no_url_resolve_to_their_reason() {
    let answered = |status: u16, body: &str| ApiReply::Answered { status, body: String::from(body) };
    assert_eq!(Err(ApiError::Transport), resolve_image_url(&ApiReply::Failed));
    assert_eq!(Err(ApiError::Status(404)), resolve_image_url(&answered(404, "{}")));
    assert_eq!(Err(ApiError::Body), resolve_image_url(&answered(200, "not json")));
    assert_eq!(Err(ApiError::Body), resolve_image_url(&answered(200, "{\"other\": 1}")));
    assert_eq!(Err(ApiError::Body), resolve_image_url(&answered(200, "[1]")));
    for body in [
        "{\"query\": 1}",
        "{\"query\": {}}",
        "{\"query\": {\"pages\": 3}}",
        "{\"query\": {\"pages\": {}}}",
        "{\"query\": {\"pages\": {\"1\": {}}}}",
        "{\"query\": {\"pages\": {\"1\": {\"imageinfo\": {}}}}}",
        "{\"query\": {\"pages\": {\"1\": {\"imageinfo\": []}}}}",
        "{\"query\": {\"pages\": {\"1\": {\"imageinfo\": [3]}}}}",
        "{\"query\": {\"pages\": {\"1\": {\"imageinfo\": [{}]}}}}",
        "{\"query\": {\"pages\": {\"1\": {\"imageinfo\": [{\"url\": 3}]}}}}",
    ] {
        assert_eq!(Err(ApiError::NoUrl), resolve_image_url(&answered(200, body)), "{}", body);
    }
    let a = article("{{基礎情報 国\n|国旗画像 = F.svg\n}}\n");
    let info = extract_basic_info(&a, NoneCleaner {}).unwrap();
    assert_eq!(None, get_country_flag_url(&info, &answered(500, "")));
    assert_eq!(None, get_country_flag_url(&info, &ApiReply::Failed));
}

#[test]
fn the_first_page_of_a_response_is_the_one_read() {
    let body = "{\"query\": {\"pages\": {\"2\": {\"imageinfo\": [{\"url\": \"b\"}]}, \"1\": {\"imageinfo\": [{\"url\": \"a\"}, {\"url\": \"c\"}]}}}}";
    let response = MediaWikiResponse::from_body(body).unwrap();
    assert_eq!(Some(String::from("a")), response.get_url());
}

#[test]
fn json_values_are_read_as_plain_data() {
    assert!(MediaWikiResponse::from_body("").is_none());
    assert!(MediaWikiResponse::from_body("{\"query\": ").is_none());
    let body = "{\"query\": {\"b\": [true, null, 1.5, \"s\"], \"a\": {\"k\": \"v\"}}}";
    let value = MediaWikiResponse::from_body(body).unwrap().query;
    assert_eq!(
        Some(&String::from("v")),
        value.get("a").and_then(|a| a.get("k")).and_then(|k| k.as_str())
    );
    let items = value.get("b").and_then(|b| b.as_array()).unwrap();
    assert_eq!(4, items.len());
    assert!(matches!(items[0], Json::Bool(true)));
    assert!(matches!(items[1], Json::Null));
    assert!(matches!(&items[2], Json::Number(n) if n == "1.5"));
    assert!(matches!(&items[3], Json::Text(s) if s == "s"));
    assert!(value.get("c").is_none());
    assert!(items[0].get("a").is_none());
    assert!(value.first().is_none());
    assert!(value.first_value().is_some());
    assert!(value.get("b").unwrap().first_value().is_none());
    assert!(matches!(value.get("b").unwrap().first(), Some(Json::Bool(true))));
}

#[test]
fn a_section_is_made_from_a_run_and_a_heading() {
    let shown = |r: Result<Section, MarkupError>| r.map(|s| (s.section, s.level));
    assert_eq!(Ok((String::from("a"), 1)), shown(section_from("==", " a ")));
    assert_eq!(Ok((String::from("b"), 3)), shown(section_from("====", "b\t")));
    assert_eq!(Ok((String::new(), 0)), shown(section_from("=", "")));
    assert_eq!(Ok((String::from("x"), 255)), shown(section_from(&"=".repeat(256), "x")));
    assert_eq!(Err(MarkupError::LevelOutOfRange), shown(section_from("", "a")));
    assert_eq!(Err(MarkupError::LevelOutOfRange), shown(section_from(&"=".repeat(257), "a")));
}

#[test]
fn blocks_are_cut_into_trimmed_entries() {
    assert_eq!(
        vec!["a = 1", "b = 2\n*x", "c"],
        block_entries("\n|a = 1 \n|\n|  b = 2\n*x\n| \t\n|c\n")
    );
    assert_eq!(Vec::<String>::new(), block_entries(""));
    assert_eq!(vec!["|a"], block_entries("|a"));
}

#[test]
fn the_map_of_entries_keeps_the_last_value_of_a_key() {
    let entry = |k: &str, v: &str| TemplateEntry { key: k.to_string(), raw_value: v.to_string() };
    let entries = vec![entry("k", "''1''"), entry("a", "[[2]]"), entry("k", "3")];
    let info = basic_info_from(&entries, LinkCleaner { chain: StrongCleaner {} }).unwrap();
    assert_eq!(
        vec![(String::from("a"), String::from("2")), (String::from("k"), String::from("3"))],
        entries_of(&info)
    );
    let raw = basic_info_from(&vec![entry("k", "''1''"), entry("a", "[[2]]")], NoneCleaner {}).unwrap();
    assert_eq!(Some(&String::from("''1''")), raw.get("k"));
}

#[test]
fn a_pattern_must_be_accepted_and_its_group_must_take_part() {
    let a = article("ab a\nxab");
    assert_eq!(vec!["b", "b"], extract_groups(&a, "a(b)").unwrap());
    assert_eq!(Vec::<String>::new(), extract_groups(&a, "(z)").unwrap());
    assert_eq!(Some(MarkupError::BadPattern), extract_groups(&a, "a(b").err());
    assert_eq!(Some(MarkupError::MissingGroup), extract_groups(&a, "a(b)?").err());
    assert_eq!(Some(MarkupError::MissingGroup), extract_groups(&a, "ab").err());
}
