use curl_troika_benchmark::bct_mux::{BCTDemultiplexer128, BCTDemultiplexer64, BCTMultiplexer};
use curl_troika_benchmark::bct_types::{Trits128, Trits64};
use curl_troika_benchmark::convert::from_tryte_string;

const MAINNET_TRYTES_1: &str = "TLFCFY9IMZVINTAZRCUWTKAFENIBIFOGKWDZQIRTYSVVHTSIIZZ9RLUYVTLXEHACXIUFJJQNFRJYMGGYDWOBNMTPFE9CGVVTREVUJKIXRHSOPFAXMNEMHEW9ZE9HVFEDEORKWGLNECZ9MXLDHPBAOMO9ZMSZJCZLAWWZKOLHBASHYNMCBCPZOXOLLVMFZVCTUDQZSIUSITRDHHXGAOVTOMSKDTZXLSCNHNXJNVGOTZPJDRHOBUAPIAIGLCETVDWSOPEKAOWBNUIEUTTLPFQLRYVRJQJOCBVOZEK9TQMJQUPEZKLHIVMO9TRIUBQNXJYIXFUWFUYWDIIDBQXRYULR9RXPSLTRFY9IIMQBLGOXUZJAKFSEJCSTYP9SWRFCNTMDMRFFWCVZTNFYLFZISPCQ99OSTMJBNLYCQLKWETRLJEOEBJZBO9ZUZMGQIRCCLBANSVYABGKMQCKWIWHHH9FGKGIURCJDKTIQBFENQCYWAX9WHNQ9OKGIWILNFJGMERJNBHDPNFCASDKZLOXLALOSMUFXYKKCDKWVX9PBOVXMAICVTHBLPWPFWJWYBTLJLXNOHREEFTJDLTYPPFMZ9MTPBHNXQL9MXRLGMKRN9EJYZMDZEOZOMKVYWKORKIBKDYZTCPOHYIADIVJWCHRVWCE9DSSHIEEINJYQWBFBTOCZOBL9LLFKWIFAJT9ZQKEUZTBARTEYUBYQOKMRMKWLTJOPVKIDXIUWQFLVWBTAYNOREZSCKAGRGVRLQUBUGKKHLL9YBFMGUMNSUMAXMCRQOQHBYJJRBMFQIUPZEBXFMHYJMAMAHUMMBLRDPBIOMJ9OCHBSBIFX9YSXPPVDMUCICHCSYRWUXXUEROHXGGEJBFJE9S9QGAQ9YOPIZOKGXRXMMFBLGVMC9QXJZTI99TATFJDJORMGJPAQGQICFHYAMWEUKWYYKIGTWYPNC9ZPQEKWAOZVCBIPZUTZUKJXFPWTQUKWIYJBULBJEJZGYEHVYUHFROLQYYPI9WCXHHWEITITPTXMTBWLJRAYV9LZK9FVGBOQRSWEFRMWBKBHAYWETHDTAAPOPPHFOX9PYQAXDVMWXGW9HDTLSINGRWGODCBNVXXYVDKJ9OROIZAULXMZUEVSDPWUJC9FEQAWMDOI9TALZAHX9ZHYSQEJOSZTHZPKWMZBTWUKNJUJNTZRWEYVWUAXVEP9NSZVYHLHZWDDTCQQTCDHTQPZXTM9ERHNNEORYBUKIRJPZORWXJDRRURZCBYLMFZKSZZVJIWXBXSKJMKUAFYKRQKVIGJJGYLXKFWZEIU9JJXRQSOFDLGXELTVBXKPDLKRLJTGVOD9QGIVVWS9EZAMBPDIEABEJJKTYQZVOD9TIGXPDJGJBRLHXCKKFFVQXFPQNKLMOMOJUDNFZCYEP9CQVNQKRYLCMCFNM9JIE9XUCDBX9ABNHZTSRROFYZCXDRLRBMYYRWUEWHC9QGGHBIQVBISISOZWXGXKQWSOASERXWNQXHWUGXDKIVDDWZZIRIERRSEOMEREYYCO9QIXKQOZQZALPBNQCBJWPV9BYDGYTDJPHXFZQ9CQZIDZTORKIABS9LFWOPWISFESVOTWIBTGDFIZBDOAJO9DJVAIQVUYEAWPRETXYWFMMUUUEUMWPGTWEUSZHJUCYGZDCSGVZGNTJBWGHGYZEOTOVIYAODKWJJLJFZGIKVGUYXRGAFMOFDM9SHSWVSDKAJGEVCORATXJHEGLYTVCGCTXZVUFVLZ9CYFCA9MM9STIZHKTGYJUACFVEGSZYJBNRWTRO9JUWZWOSPGJYIRTQSD9EPHONGYDWUQXYRHGXUSVGIAPVGOLLFQTQOYSOMHAOCNVKLPGRKIEVZGCFVWLTBEMM9QMUML9RVYCMOFIUCNTTALZKSGIPVNLFUGDPTHVGKDUIOZMKAEPYSYZTNFTMWJY99VGIM9YHI9WIVVJAANTHPKT9HOWWZSYRDMVJCSKASOZOOPAUOMMSOWNUTTGREQWPQDKRGGSODHKPFUIXKLVDFJSOQH9ZYMREQNXHHPOEISKPGTNIEBKV9SEFTKZZZVXQAYFPYTDMJVUULL9YNMITHTRB9GKILOFJCCYXKMPIYNNOXTVNLDKTODGEADIRIUXHNGVAAIEFYG9BE9BRNAZUABPF9BVODCZGPXBLBVJIXYLLYDVDUKVYGIWETMSKYXGYMXSXGKPDZMG9NOFIMSKFKIHTQSAVGIWERREF9MEAOCDE99FXRR9FDCKOZOJBTOZEVLLCASBONUMPDVD9XWSHEGZ9999999999999999999999999999999999999999999999VPRPPZD99A99999999J99999999KOJZIA9PSFRKG9ZUOJO9PGDIEFPGPSDKVPVBSXDIOOXAPZHKLJHEULIJKYRTDXOJKTRFYYSABGTBRKVCBBZZSWTVHQSQGJKQAHLINBNNLFTQERSITF9BAJCODBNLLQEQZETPQBGWFYCOBUARDAGTCGQCGOUBLA9999QPBMLSSKBO9ILX9QKYCAXNHLK9KFUJYO99GOO99VYROHOVXACRKYPFVY9JRSHJIKFGBHOCXQFPMZZ9999999999999999999999999999999HKJSFUCME999999999MMMMMMMMMCVMNOI9PFCHLRVXSUEOCRLTRMUF";
const MAINNET_HASH_1: &str =
    "MGPBAHYHKSQMMXXONAOOEDQS9RFEKMOOJUCGXSFYLXBHQFWIHMJGFJWDSZTGKHNBCSENCXSPQOSZ99999";

#[test]
fn bct_multiplexer_works() {
    let tx_trits = from_tryte_string(MAINNET_TRYTES_1);

    // add those trits a few times
    let mut mux = BCTMultiplexer::default();
    mux.add(&tx_trits);
    mux.add(&tx_trits);
    mux.add(&tx_trits);
    assert_eq!(mux.get(0).len(), tx_trits.len());
    assert_eq!(mux.get(1).len(), tx_trits.len());
    assert_eq!(mux.get(2).len(), tx_trits.len());

    let _trits64 = mux.extract64();
}

#[test]
fn multiplexer_len_reset_is_empty() {
    let mut mux = BCTMultiplexer::default();
    assert!(mux.is_empty());
    assert_eq!(0, mux.len());
    mux.add(&[1, 0, -1]);
    assert!(!mux.is_empty());
    assert_eq!(1, mux.len());
    assert_eq!(&vec![1i8, 0, -1], mux.get(0));
    mux.reset();
    assert!(mux.is_empty());
}

#[test]
fn extract64_encodes_each_lane() {
    let mut mux = BCTMultiplexer::default();
    mux.add(&[0, 1, -1]);
    mux.add(&[1, -1, 0]);
    let t = mux.extract64();
    // 0 -> (1, 1), 1 -> (0, 1), -1 -> (1, 0)
    assert_eq!(vec![0b01u64, 0b10, 0b11], t.lo);
    assert_eq!(vec![0b11u64, 0b01, 0b10], t.hi);
}

#[test]
fn extract128_encodes_each_lane() {
    let mut mux = BCTMultiplexer::default();
    mux.add(&[-1, 0]);
    mux.add(&[1, 1]);
    let t = mux.extract128();
    assert_eq!(vec![0b01u128, 0b01], t.lo);
    assert_eq!(vec![0b10u128, 0b11], t.hi);
}

#[test]
fn demultiplexer_gives_back_each_array() {
    let a: Vec<i8> = vec![1, 0, -1, -1, 0, 1];
    let b: Vec<i8> = vec![0, 0, 1, -1, 1, -1];
    let mut mux = BCTMultiplexer::default();
    mux.add(&a);
    mux.add(&b);
    let d64 = BCTDemultiplexer64::from(mux.extract64());
    assert_eq!(a, d64.get(0));
    assert_eq!(b, d64.get(1));
    // an unused lane reads as zeros
    assert_eq!(vec![0i8; 6], d64.get(63));
    let d128 = BCTDemultiplexer128::from(mux.extract128());
    assert_eq!(a, d128.get(0));
    assert_eq!(b, d128.get(1));
    assert_eq!(vec![0i8; 6], d128.get(127));
}

#[test]
fn demultiplexer_decodes_bit_pairs() {
    // lane 0: (lo, hi) = (1, 0) -> -1, (0, 1) -> 1, (1, 1) -> 0, (0, 0) -> 0
    let d = BCTDemultiplexer64::from(Trits64::from(vec![1, 0, 1, 0], vec![0, 1, 1, 0]));
    assert_eq!(vec![-1i8, 1, 0, 0], d.get(0));
    let d = BCTDemultiplexer128::from(Trits128::from(vec![1 << 100], vec![0]));
    assert_eq!(vec![-1i8], d.get(100));
}
