use vstd::prelude::*;

verus! {
// Zobrist keys: the outputs of a xorshift64 generator (shifts 13, 7, 17)
// seeded with 0xC0FFEE_BABE_DEAD, taken in this order: the piece keys slot
// by slot and square by square, then the side key, the castling keys, and
// the en-passant file keys.

/// Key of a piece of slot `i` on square `j`.
pub const PIECE_KEYS: [[u64; 64]; 12] = [
    [
        0xbad375bb4309a850, 0x7e0f503e9cefaf00, 0xb068cd1f4f61b05e, 0xcded8d8bd6e4a4be,
        0xe1d79756e8198277, 0x7299d70eea81ccb3, 0xbc7c2729696583ea, 0x48cb9d443670f26d,
        0x806fa5676dff28c9, 0xe8b8bda6b047c4d8, 0x18005be3eeef7d51, 0xafbe24fdd291d7eb,
        0xd0d2b2ea6ab46e84, 0x4705dd17d0182759, 0x2feb93ef3ff4e157, 0xecde59cafa33bd55,
        0xb6abe185ca5c2f6f, 0x17f1c8228accacf1, 0xca3ba091babc29e8, 0x3686a315e4882bbb,
        0x4c5607c28264b52c, 0x9bf51af06664b746, 0xb8fb52ca563d6fa8, 0x6b7c9c421ed1ff77,
        0x954b14ddd3ef6149, 0xe9c5f08ee42fcdcb, 0x5fdd93080a8d8090, 0x3a9df8a876c8bf91,
        0x4bb8e06c56a4eaae, 0x57c174a02b90c8fb, 0xcfc4f6e4f9beb7aa, 0xe3bb4b2a499f6045,
        0xf7f093a44956efc5, 0xc13801b5af33135a, 0x92fa7cbead3ae3fc, 0x3840f70410d1e93b,
        0x4d0516aed9ff6429, 0x361b422b7652b0a1, 0x7f9354b4d9061d80, 0x9d39a10dd1f571bb,
        0xfe40197e320d9598, 0xfd96fffe2ed9e8b3, 0xf28f5b8176ac17a2, 0x0eb030df93aae70d,
        0x22e5a08439d3d183, 0x0c3ab339d2a476e0, 0x3e163ffe8ada860d, 0x82eb1e26b12d1041,
        0xcfcbbd95e1417a21, 0x5e74988c14b35095, 0x6ca344972cb4b374, 0x80beb11cb78b8712,
        0x6d74246c35df149c, 0x4b0ea05663880db5, 0x57c43d0a8d26d0ee, 0x9d2bb15dc60b66cf,
        0xf9c92e81d40323c2, 0x91f2401e99119505, 0x3877d5d67c38576f, 0xc3832815ec3a1c01,
        0x8abf83731a174879, 0xfdc7620d21ac58a9, 0x86cc7c6ccf5c0a58, 0xc5cbe75a0813244c,
    ],
    [
        0x767b5f93fe4b9104, 0x798640fdb73fc726, 0x3b16337f1914b128, 0xbb794ba290bbd24a,
        0x942401c86ffb776e, 0x786be8065b149a00, 0xef25f6aa67ac3334, 0xe705e73912ad2652,
        0x5a99def13e37a89e, 0x8c0e3fa1e42c204f, 0xa529a6e93f7b8bcf, 0x40dfed389cae6f18,
        0xa2a2188fe063f5c6, 0xe6e5b0879ebc83ad, 0x03f9f47fcd00b1ea, 0xfe8428d370998a09,
        0x8ff2f8fbf7e11b5d, 0x6b5beb4c8775ae2b, 0x28b4f2fe29bbafb7, 0x74cb7c4d64a5d528,
        0xb1848e01c4b8d482, 0x5ff3d8d278c2c5ab, 0xad6b2c8b21f74ae0, 0xb122fa509bd01c75,
        0x9e45a224cf74010d, 0x592e8e2bcf550a4f, 0xc9a7f9af4bf6d39b, 0x5f1f51bd435eb8fc,
        0xe408daf64c73ba8d, 0x801529f676245eb8, 0x449880ede802b805, 0x3b00ff6e5c161c35,
        0xf9ae63da7c359d4d, 0x39b66a027c6d0537, 0x66964f20268872fd, 0xf0e13a6a30367d58,
        0x9f2b6850a92647a2, 0x8cd82dadce4ba3ad, 0x16e7a9d88c1e7faa, 0xe04cebf226c6e9d5,
        0xe9219663cc87b146, 0xb2038d9883922fa4, 0x3b95db05d61c62fb, 0x97ff26eadf0b84fe,
        0x0027486760256c77, 0x0eafe74abceedb6f, 0x88cfaf2eb37e3d19, 0x26b7c1dab872a723,
        0xc0c305669015eaad, 0xb0bac2ff716aca38, 0x2423fe70af2591ac, 0x3bdc5a175634318f,
        0xaa9f6afbc7fdda2c, 0x630f7aa221712a98, 0x9ca1b0a5c1b06ecd, 0x6ee5b560d1511d50,
        0xa1d1f229b1caeb6a, 0x459a77650506e43c, 0x7fb49e0e9fda66f4, 0xa371d62be6d0ef39,
        0x1fcff227598fa0a7, 0xfe010ea46c8c7626, 0x8e0d3b2bc718274a, 0x0fa437a2597e8584,
    ],
    [
        0x30abf9cfa1c3998f, 0x1cd5534307af9d7c, 0x24737a01a3641d46, 0x1a46ddeb737544fc,
        0x49bde458f2b71175, 0xdb288e8b08968217, 0xf3e1ca8d7ec3cad3, 0xc01a5eb29e9a9986,
        0xa02d8919145b0d35, 0x7ca614e9fdc8566f, 0x054bf0d12cedbd03, 0x966b72108f0946b9,
        0x9bb5b815f079da74, 0xfcc39554972134c0, 0x240a740b5d8846a9, 0x79544a6a993fdc64,
        0xa706db938dce3adc, 0xfa707f7f3d5291a9, 0xbbbd2c96382d7eca, 0x769ad5f31db5d6b7,
        0xd22ea772cd99f0da, 0xf8b59ff71b13b5bb, 0x9f0564937f5f9c10, 0x792cdee633942728,
        0x127ec49a14d3c566, 0x716084439a7ffb6c, 0x2cefdd52c2ec5f9a, 0xcae1a11f14c721a5,
        0x713e3924325e66a6, 0xa354c8fe46a1b3eb, 0x166bde50f0a56a4c, 0x6af3296ab2673398,
        0x8871f2a02f421bff, 0xce04456dfcf58008, 0x1429fddc787d6908, 0x87a9b3dbd142d1da,
        0x6871b4bea99d62f9, 0x04c792dd9331c67c, 0xc684a1a9a949baf0, 0xbd47c9feb4219585,
        0x9a78087c5c4017ee, 0x43a600f2ee82ac41, 0xd98ed161ccce9959, 0x59f6729d0b8c722b,
        0xa61c21ce5cdc800f, 0x61636f08d2dadacf, 0xefe92c9957e43cba, 0x2f3cc5ce2f559a43,
        0xa2a3a06f564bc1b7, 0xfb65d270d5c9dbf4, 0x7f19658c17ec3543, 0x3e715272c9b4dde9,
        0xfeb2c0090689ee12, 0xa9cd9163f9a1394e, 0x40c0cfe0a04de8bc, 0x1d333c9f77badc6d,
        0x5dcc6b12d9451295, 0x09bb739934019df0, 0xec61aed2f026e2cb, 0xd66787797bbb7dce,
        0x5479a90b7940b8b5, 0x8ec426ba4182b484, 0x9aa94e2f22e610ed, 0x54447d538822478c,
    ],
    [
        0x7ac70eebaf546003, 0x05c20dd27114a803, 0x221eb8cec6fae193, 0x294e1d2b98dd1090,
        0x9ae60d9947d88eb1, 0x45b2aa6df57ab3ec, 0xc508a6695d573d8b, 0xddd67dff1ff39130,
        0x883793211b2a3a12, 0x54eebe85811caae6, 0x674ec26a8c0eea33, 0x97e49b18b1a41b27,
        0x00e2577c9f077ad1, 0xf4b34e6e8875e064, 0x58f98a7dd15992a4, 0xd109c1a05fc90881,
        0x8b742984f9849ad0, 0x71ea3bcf4dc127e5, 0xdd59fa0c7e3bfcea, 0x699d6a6b7483f193,
        0x8cbc5dbb19c4f2b0, 0x56f829c52e37d755, 0x4950abf24802cdbb, 0x22f9541a7856c6e0,
        0xd627ecb12711d36d, 0x7c61dd4eac508b8b, 0x76edf06264e3a85c, 0x367fa4101dd3f80c,
        0x7ab230ca8fefdcfc, 0x533802c46212bc45, 0xccf03c79690b287d, 0x141c9743bec6816d,
        0x954db937b668f72f, 0x10e522dd47de0d01, 0x5bb261d769c4d15b, 0x2c4bc5e6f07a6e39,
        0xbfe22852078c34a5, 0x8bf834478d02a58c, 0xc4b2086c918e43c7, 0x4e6723e37e454e80,
        0x5e287ac74800641d, 0xb413e6f54d20c395, 0x62c33a3e795cc752, 0xfc7068141ecdea5c,
        0xeca47f98f5d16688, 0xfc50f68450386645, 0x1bb1c8e815db27c9, 0x05663c47504c43c6,
        0xd4af80eb9006eac1, 0x0ae6a086756c7754, 0xdaa4da145905faba, 0x7a4882aab0001fcf,
        0xb4ce223ffefe0c30, 0xecdf30560756fc28, 0xbc7b199916c25bd0, 0x8899153189cd2b67,
        0x1feb23b12d1a88f1, 0x03568de71bbca1a0, 0xa7d4e762cf51b0e3, 0xa4a51e8b7e3b4b42,
        0x34278755d5d5ad54, 0x8a6ddaeb18a3d30e, 0x804be083b2579728, 0xbe6a8583363ff206,
    ],
    [
        0x4203d55dd92bcc62, 0x45919d69d712c37a, 0xcb59ee02689b787c, 0xd7dadb608683d18c,
        0xc1e09cb1f715352f, 0x4dfda1309e19b485, 0xf3049a26428006ac, 0xc5258f70f5932da1,
        0x79e02cef927343ba, 0x36bc56fcae8a0bbd, 0xb44c6cef15f650ea, 0x6338d5e4f1c2c6cb,
        0xffe163d833459186, 0x70ca9194963dbb25, 0xc416fd62d53da913, 0xbe98073507ddf681,
        0x0a00127ebe27cd2c, 0xbc3d3c2ba06149b6, 0x6ae0b43d8b0f26a5, 0xea32655eb45431a8,
        0xa6b3b4b87d93f3cb, 0x357cdda69a3546ec, 0x926e7be7dc4f1761, 0x177560d200c0710f,
        0x470ecb733ea6522d, 0x44a11bead09835c9, 0x95e7b2608a4957e2, 0x8bb31387086e7dcd,
        0x02cfd1df36b47276, 0x47ca887125af4712, 0x5dd3ac327eef9d1c, 0xb855ec85581a8526,
        0x9fdcc45777f739ac, 0x0aa1013aba5d3cdf, 0x9f68a5275d315166, 0x26e33dfb217baa44,
        0x8311185164bb4c10, 0xa40400e9fc333e88, 0x3e7384bab13ffaf5, 0x7809f2c3447d9840,
        0x342de44e887b7370, 0x73e3b699d6f55996, 0xdf850b27de7616a5, 0x180dae3f290bf3c8,
        0x138108304782162f, 0x2f61045b76cb79c3, 0x735b85d6e220fff0, 0x35a52b6b5c3b420f,
        0x313208494284574b, 0xdc68a1a221b7ed25, 0x7173b70922d56bbf, 0x6b77e70eb5edcea8,
        0xad19c991144abf35, 0xec9f5a98fd3d470b, 0xbca98b5a15fd9f45, 0x143596c4472f153b,
        0x2f9b099b2d6165d1, 0x37ebe35e896cf35a, 0x2f38d0448951bc3c, 0x7682e6bb43239044,
        0x61843b5003814664, 0x298f3160d0cb5de8, 0x1462fd2e2aa6b153, 0x2744a4e19897c8f1,
    ],
    [
        0xff062849710afb20, 0x0ab2e400b39e26d6, 0x79b1b4c34f9c6f1b, 0x52a2c97d41f1f105,
        0xfc9989dc1e60f3a7, 0x50310e2c57143b80, 0xaa99f64eaa2af3f7, 0x93e34434941cbbd0,
        0xc0a7c7da802e76a7, 0x65cdce3e3773638a, 0xe431eba9b42e27cd, 0x71da04fa79b228c2,
        0xb39088fddcf53c13, 0xf9c15606d8d7b2ab, 0xceaba3b9b8c3d70e, 0xe0b82ec427e65320,
        0x327353de33555786, 0x518765b249c4dca9, 0x21ecc13979555f50, 0x4b2793fbb6c621ee,
        0x11f83cd51844162d, 0xa38a198b4b36b541, 0xed628b471673a86b, 0x47c69e2a1a4e35fb,
        0x2099ec4875e8b750, 0x9b4bd0b9edb8b23e, 0x493798c5ffbc8cda, 0x49a36c8b0c7d8343,
        0xf64703c52467c885, 0xa61d459c42658654, 0x2e2536dfe3fa5858, 0xe784e4749c70bae8,
        0xbdd69f62bd01e19d, 0x1440b5334e0c251e, 0x20754f3e5a92bad4, 0xca480ac38091aaa1,
        0x7ece777815c601b4, 0xdf179f9d953560b7, 0xe67f7bc2c03dc7b6, 0x5210c9f7d14891b9,
        0x94ca924be34d4eda, 0x14f2f5f84b8d22c7, 0x84389f642e8e6942, 0xf3faa24242416510,
        0xb9417ba33d8aa3da, 0x7b4dec6e4d18001d, 0x8c400a85f93b975d, 0xa5990946e0a19733,
        0xe848593e865978dd, 0x4f65d2c6f8c85d6c, 0x1b5feec2612f16d6, 0xbc0e344636043d7b,
        0x84b486f3ab4a0bc1, 0x58b999b140ca4f96, 0x36ce1c9ea438fe89, 0x13a462b592f60d34,
        0xf4583ea6ddaa2c2e, 0x0bd882e6d8f3b3f6, 0xb925eeeb8df26911, 0xd827b8c8b857e983,
        0x8a5b51474ccd4690, 0x5eedec01a9ed781d, 0xe7b7ff4875b905ad, 0x80571b51d26abce6,
    ],
    [
        0xd54622a59cc3901f, 0x790f9e2474e3f0ff, 0x86ec734aab55e8de, 0x504c80a93f7cb48f,
        0xe9c95d7538f28e26, 0xa8dc4a57fa9022ba, 0x110a721a2dc4ec7f, 0x146c4f9ac1e59a67,
        0xcfb655116f6a2893, 0xa505f454a228b802, 0xe61b5254c5a6a9f2, 0x5fa2c80660fbd821,
        0x868d1381266a07d1, 0xbef13198f161079e, 0xce24db887c13e211, 0xaabb5700d77b6195,
        0x3733330ac0135216, 0xce4db9d4d9613132, 0xe0ffd1cef119ffd0, 0x1d17a90e6520382f,
        0xfb2464a211df939f, 0xfaf6e602869b2b78, 0x91025bdbc66fc32e, 0x796df5bc3c261728,
        0x4becd8a1ad329106, 0xe8e2fd051ba475a4, 0x03b636b8dea4d44f, 0x1a86d67c40eb6e27,
        0x587212364d03d13b, 0x7e4284b4ebf8f859, 0x4d7977cc1cc83fe9, 0x883c97bb5aaf75d6,
        0xccd0b9ec54079ebd, 0x084e1435431f9ec0, 0x910116623e5c11fd, 0x24bf153c0227769e,
        0x8f309e08a2cb5ff3, 0x4f42bc0bc1bf558c, 0x9f9ae505c316c827, 0x91078191ccc80c77,
        0xc7066ac01f8261af, 0xa18eb3c3ee48eeac, 0x3034ef624e985471, 0x837b5ac097ac5899,
        0xf4b9e3a97a560668, 0x63a9aea61d263064, 0x79602ae11494e504, 0x9c02ae2b74b80dce,
        0x562e54ea9141ce55, 0x5c143b7bdcc87889, 0xb60b9a9ec20eea38, 0x2067b0b452af79ec,
        0x66f52547c6d7dc1f, 0x0f95687b2fe09467, 0xd0e75fb16a08ac8f, 0x9b4c6ed9634a7e16,
        0xced0f5961205af6a, 0x36b0e6f777cf3eb4, 0x8207ce6d96ab8dc9, 0xabbec5f887f88892,
        0xdebce523a3c11d03, 0x026eceba4893bff9, 0x33402a83e29e46c6, 0xda8762599d840bcb,
    ],
    [
        0xa43454c3ecfc911c, 0xccecfd4b985eaf3e, 0x595a9f18f6e21de0, 0xef228aae7f82a1db,
        0xe8a28409f35eb258, 0x437e3fa9d327993c, 0xa20f6746885c190e, 0xbc395bf7d41322bc,
        0xca07987f0cd62bf9, 0xeb566d62b1e659ee, 0xb8e643749b942edd, 0xf325e54031f311c0,
        0xbe63a661a0aa87e3, 0x519afe3c8dee4a2c, 0xa4fd591b7d529db8, 0x1a7913ace1be5683,
        0x1574acf5c8e4eaee, 0x026ecfe6366458bb, 0x8054fd2b559ddeca, 0xf6a1cb87f07617f7,
        0xe18ad639ecdde618, 0x5ad15908a316dbd4, 0x2af2f4c9aa5a8363, 0x5880e984e2888ea5,
        0x6f47a44b754a96f8, 0x341690c29870bdd5, 0x5b54f3e0050989ee, 0x81edce1ff4a6217d,
        0xe18a213b0216927f, 0x93105c08a2cfc09b, 0x4c239a13cbdd19da, 0x7e4250c192e59569,
        0x9882e248520e2403, 0x3af1749f34b5588b, 0xba114e1b6d6f70fa, 0x9d165b1c4f40d09b,
        0x247a42a3920d17fa, 0xb5f185a49239b355, 0xbfd75bfb09fdb573, 0x816306ebd39f72d9,
        0xe0bf1b1eb947da7c, 0xe88728b6bb1c4ac8, 0xb5dfec69189bc05d, 0x9d0b4246156b409d,
        0xfb7c50ee893a115c, 0xf417f3c53c7bb27e, 0x1fbe37a2eb941a9a, 0x24f36e286048d42f,
        0x546e7e9464b6ae47, 0x8d46e3dfd1aab2db, 0x962dc6253002317e, 0x4b7ecb6669f9aa9c,
        0xd79dfe7313817ec9, 0x1ef54f7ae6c8ee74, 0xf97d5e6479a062a8, 0x37f118cfc5c4886d,
        0x77ae4576ce1aba3d, 0x85677953b27da009, 0x409de9e2cc627909, 0x1a464f85e133dfbb,
        0xee9825a6b07936c4, 0xbf6521572edef5a9, 0xad728813ed8f0202, 0xd51a87e0f0d8dc86,
    ],
    [
        0x2d7d6df505e08cbf, 0x1465466c82938266, 0xb2f499e776fefce2, 0xee2657b62b06799b,
        0x437fa009aead73a8, 0x67ff19443e47c34f, 0xe6bd8ef521b07f09, 0x8ee0bc8d5363fdb7,
        0x71da29d58194b78c, 0x8520ea43228dfde3, 0x27452f1945bbfed8, 0x14e18789185e3f25,
        0x2fcf31c00e33ea1b, 0x74a8214aa9886b0f, 0x9d46d1d3e3925819, 0xee07837a5e125ae9,
        0x2c06d3e2ad5de41c, 0x111d74be3255d8d4, 0xf1d7672aec97c665, 0xa092962ac521d0a9,
        0x3194a486d05a9948, 0x48af469a64817e7a, 0x45004daf1bd4a206, 0xc73c8c9eb10f4ac2,
        0x5e1649c56f49a4d7, 0xe5c8bf2dc7d8e25e, 0x487bb1917e10041a, 0x24eabdb31d4a6292,
        0xbcf6acd2401412d7, 0x138cfa8dbdae6f32, 0x6280f6f37e70bf6c, 0x34b80293196a0512,
        0x5e79ff8a8e4bd598, 0x1f75593d3b772433, 0x0264ab323538a6bb, 0x46b0ff1639c01936,
        0x615c51784f9b1484, 0x96d1c8993c0b83ad, 0x7b11930bc332dfea, 0x5c948d47425400d5,
        0xf729ae53a2e23d94, 0xf811e88fc3441cef, 0xe5070c7610744f16, 0xbf480caf2cb5a208,
        0x1a7785617d5d4b4c, 0xd0309ea60428a2da, 0xef5d3a395c6d051f, 0x03a50ff9649d78d5,
        0x8d46ab0db0d8d764, 0xfece5decf8f43fca, 0x7ff6129151996535, 0x5d7903584cbbbabf,
        0x205d65eda18f820a, 0xad06c2a556715f8e, 0xeccf9a4c96199eb1, 0x16847196f91c21cc,
        0x1e57ec57c2c1ea8f, 0xbe556ef9b55b2a9a, 0x8a69a7b281367a4f, 0x2f1405bdac15657b,
        0x40420a299c597171, 0x6ea6d9f688b5bfd3, 0xc510c6937fe9406c, 0x84003aaa989309ec,
    ],
    [
        0x0484d3d021a3d4ff, 0xcb540d5f0aa64c96, 0x6dcdbab61face58f, 0x444c47877b133f84,
        0x6e4c7c00272c78fb, 0x202726d29ef77eca, 0xdab85c7eaca262b7, 0x1d678c93e2516bb2,
        0xdb5ce24ab77365e5, 0x7800bb3d26a45a6e, 0xcc152cb2ec06495a, 0x86f0f51ee7f75348,
        0x860414b912596fee, 0x25a5a72816b9e6b1, 0xd90b8cc2e643193c, 0x4697d7763072500e,
        0x7bb4f65464db772e, 0xe8c1ae6f00aaca40, 0x717b0c44b2f90fd4, 0xea8d3564b5b388cb,
        0x8d9322d21b17bd1a, 0x0efde9a8a4ad94e0, 0x6b21b4fc838ff7c9, 0xec8d97dc13403a66,
        0xadf401d6bb00e392, 0xbba2df63479646d5, 0xb473725a52627f18, 0x4b402b12ca767de6,
        0x23cf4d3aecfb289d, 0x4af5457271e3598c, 0x992eb0967e997c3f, 0x40d5b0c299b2a107,
        0x07463021ef036585, 0xd37488b344a8a20e, 0x092a1d777ddcb0ca, 0xbc431f0d84447b2b,
        0x0ba9e8b4b30d591d, 0x36836415fbc0a4ef, 0xeb03b1dcc84ffe66, 0x2d0b635cedd8381a,
        0x3fd67507b8daceea, 0x2ea5de93db2b81f7, 0x0127c63bd02b4b34, 0x029ef538657b50a2,
        0xc949c887bc77ce83, 0xeb57232e9490e1de, 0x2793772b1e80779d, 0xb841347486373032,
        0xe8043219215512d2, 0x5ea4500d7ce74c77, 0xbdd1d8e8481d7f2f, 0x17512826ec156e11,
        0x8eaf4ce6c84ee08d, 0x8274662b366ffe0c, 0xcb626a9d41dd22f0, 0xc57af1b3e12224b5,
        0xb36301735187edbc, 0x31c1a74531a60d67, 0xa3c574a6e290f8bd, 0x1a01235db864560c,
        0xbce560f8ab809da0, 0x121cd3ea4072f49b, 0x38d6f56b79b857b2, 0x3d66fa39dc928b9d,
    ],
    [
        0xe7b437dd096ee9ca, 0x7237622338cd0699, 0x592e396cd8861ad4, 0xd54e62eea42923e1,
        0x3b2f3fac0499a9e6, 0xc9e195cd09ac2335, 0xf38c7d3350b71633, 0xfac5b120d0ab94df,
        0x9cbffa8be1181436, 0xd4623f166165e99e, 0x771ea101a27485cd, 0x72b3b134d3a4bf86,
        0x06b188af6a2ed779, 0x6d89e6618c8e7497, 0xe958196ef9e4adbe, 0xb01cbcc95e41cb65,
        0x1f9457e9068531b3, 0xdfec0233bdd23710, 0x1dd0f0ee463a577e, 0x47781fc1266c3c50,
        0x32fc4a3158f5f028, 0x911667979aad11c8, 0xe6882421cf3339eb, 0xe8304b40adee4558,
        0x3c1bd15f002bcfd2, 0xe4cdcb7c94b82ccd, 0x67a9915fd9abcfd4, 0x8855849daf87ed4b,
        0x42a8ac1a2828d051, 0x2a1fa6406724b5b1, 0xd4897512d945b09a, 0x0b134f76a17e5d7b,
        0xa2e7d066e6069f01, 0xed2429a59d73727f, 0x1ebf728a326ceb5b, 0x2053a81d28c3844d,
        0x0fc408ea32f0b005, 0x7796655aacf3f025, 0x2f01fc002658be85, 0xe6d5b4ecba9b0eb8,
        0x3719fa0d89b096a5, 0xff13230811c2fec8, 0x10a0987dbcedc935, 0xe0d7fa3e3a0effe7,
        0x25a52976ed89fbd8, 0x47d6598061091e2f, 0xbfeb9998cfef67d3, 0xaf8ae3c3b2eb2ddc,
        0x137ea549f3f00c87, 0xae5b0f09c7382d5e, 0x49277dac8a1eca84, 0x35b2d2e721cad611,
        0xba56654e0804e7fd, 0xc01e48a36b36b172, 0x6a045d4bb742c090, 0x038720e86aac6111,
        0xd598236026655d93, 0x4f90667af31c93e8, 0x4f0b212ff23d50cf, 0x2ed593ff7bc8f9ae,
        0xcd6df816ef8ec3dd, 0x85d20899ebae891a, 0xaa47727647e8d288, 0x177d3ffb0958a12d,
    ],
    [
        0x053820e24b19fb2f, 0x4382cc7bb0a6e319, 0x580ec5232322489f, 0x69a03dce7379cbce,
        0xee49d16e1f260bd9, 0x60934d6ce8fd918e, 0x528bd5202e23c92d, 0x36f4b015545665ff,
        0x4ce2b91a0a3056f4, 0xecaf0a72ae5d0b59, 0x37f66756f336470f, 0xfa6e37024b220841,
        0xf9c2eee63e1c7c11, 0x8fb9e08d3baf60a9, 0x9c215b5d4e453428, 0x78c5e153ab91b440,
        0x5375f74ed0738728, 0xc67356b5759baa26, 0xca10aa4ba53ad4f2, 0x044521e69deddddb,
        0xa246218bb15a10a0, 0x14a4dc5eabaa8c81, 0x20420ca41e7ed9d8, 0x25ff07ebb619526b,
        0x2f1def13f9729a0f, 0x4de1cdd3e8911cfb, 0x7bf39690889c6002, 0x802bc1a632111842,
        0x8a388b9d0cdf6af2, 0xe2d864d6bd0c28a7, 0x83bd9ac02404f936, 0x9a7c21d4c0dc7d44,
        0x77039768f89614be, 0xaf30c981605bd717, 0x7feef959847e4579, 0x250f82d46f2ec7b3,
        0x9ea00c41f94f16fc, 0x580bf441a405b7d1, 0xa84fe6f4412668fe, 0xcc22164e9a7fdbaf,
        0xaae0d51b3c782fd8, 0xdac1161142fe2987, 0x89970db0b2e95414, 0xdb45df6c442303bc,
        0x6ee6ef7fa16a2abb, 0xa0a78a8e21a9302e, 0x15194161223fa9ce, 0x22963abc5092651d,
        0x8394b3dc0d27a697, 0xcdfcfc115032ac1a, 0x05ac7cce343e8fc2, 0x295b3d27f2b7425d,
        0x378dcd65cffb1b99, 0xe3da05d1ce0d2bee, 0x5af66b245fd40a39, 0x1c8303437bf40c6d,
        0x09d9b9ff3fe75f35, 0x1be435ec2a3ffccb, 0x9bf607d121e9d1f2, 0x2cedbc6bbe423ed1,
        0x8e3f76e2e3b32eec, 0xb9a1b205480073b1, 0x3c9840c632d6bf16, 0x3bca3e6df32e17e8,
    ],
];

/// Key of black to move.
pub const SIDE_KEY: u64 = 0x62efcc69423eb1c7;

/// Key of each castling-rights value.
pub const CASTLING_KEYS: [u64; 16] = [
    0xd999b3ba73e65d64, 0xae4b4a49a48648de, 0x32c5c4a9b8d8b3cf, 0x2fefc5ade92c1168,
    0x4e063bd75d43134a, 0xdbd1ab77ce8c07ec, 0xb76429d9cb2b64e3, 0x6f00136d0b2c6aea,
    0xbf6e47970603c8bf, 0x4b403dcdd03600ee, 0xa5e978d3a8d5976f, 0x5c43fbca870e0781,
    0x9f86fc9ea6eddbce, 0x44b2354dfc5d33f9, 0x79b810ff792a57de, 0x1b1bbf49ee5434f1,
];

/// Key of each en-passant file.
pub const EP_FILE_KEYS: [u64; 8] = [
    0xa327bbb16fab80d8, 0x3e281a77543de1d9, 0x473e2ebc9162cc5a, 0x5c3fbd1957fc5f42,
    0xf7598d917f54377c, 0x2d1869ae8e6cc012, 0xe64a43976a665d12, 0x1068f2893cd79528,
];

} // verus!
